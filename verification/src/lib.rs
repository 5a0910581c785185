//! Verified core of the Aetheria chat frontend: message-text rendering,
//! HTML sanitizing, reasoning extraction, event-stream parsing, chat-tree
//! navigation and the other decisions the user interface makes.

pub mod text;
pub mod reasoning;
pub mod sanitize;
pub mod outside;
pub mod safe_html;
pub mod markdown;
pub mod sse;
pub mod theme;
pub mod models;
pub mod chat_tree;
pub mod chat_gen;
pub mod lorebooks;
pub mod card_import;
pub mod ui;
pub mod members;
pub mod editors;
