//! The calls this library makes into outside crates, each with the contract
//! the crate's documentation and source give it.

use vstd::prelude::*;
use vstd::utf8::encode_utf8;
use crate::markdown::{MdEvent, MdEventV, md_events_view};
use pulldown_cmark::{Event as CmEvent, Tag as CmTag, TagEnd as CmTagEnd};

verus! {

// ---------------------------------------------------------------------------
// urlencoding
// ---------------------------------------------------------------------------

/// A byte `urlencoding` leaves as it is: ASCII letters, digits and `- . _ ~`.
pub open spec fn url_unreserved(b: u8) -> bool {
    (48 <= b <= 57) || (65 <= b <= 90) || (97 <= b <= 122) || b == 45 || b == 46 || b == 95 || b
        == 126
}

/// The upper-case hexadecimal digit for `d < 16`.
pub open spec fn hex_upper_digit(d: u8) -> char {
    if d < 10 {
        ((48 + d) as u8) as char
    } else {
        ((55 + d) as u8) as char
    }
}

/// The percent-encoding of a byte sequence: unreserved bytes as themselves,
/// every other byte as `%` and two upper-case hex digits.
pub open spec fn url_encode_bytes(bs: Seq<u8>) -> Seq<char>
    decreases bs.len(),
{
    if bs.len() == 0 {
        Seq::empty()
    } else {
        (if url_unreserved(bs[0]) {
            seq![bs[0] as char]
        } else {
            seq!['%', hex_upper_digit(bs[0] / 16), hex_upper_digit(bs[0] % 16)]
        }) + url_encode_bytes(bs.drop_first())
    }
}

/// The percent-encoding of the UTF-8 bytes of `s`.
pub open spec fn spec_url_encode(s: Seq<char>) -> Seq<char> {
    url_encode_bytes(encode_utf8(s))
}

/// `urlencoding::encode`: percent-encodes every byte of the UTF-8 encoding
/// of `s` except ASCII letters, digits and `- . _ ~`, with upper-case hex.
#[verifier::external_body]
pub fn url_encode(s: &str) -> (r: String)
    ensures
        r@ == spec_url_encode(s@),
{
    urlencoding::encode(s).into_owned()
}

// ---------------------------------------------------------------------------
// html_escape
// ---------------------------------------------------------------------------

/// The escape `html_escape::encode_text` applies to one character.
pub open spec fn html_text_escape(c: char) -> Seq<char> {
    if c == '&' {
        seq!['&', 'a', 'm', 'p', ';']
    } else if c == '<' {
        seq!['&', 'l', 't', ';']
    } else if c == '>' {
        seq!['&', 'g', 't', ';']
    } else {
        seq![c]
    }
}

/// `s` with `&`, `<` and `>` escaped as entities.
pub open spec fn spec_encode_text(s: Seq<char>) -> Seq<char>
    decreases s.len(),
{
    if s.len() == 0 {
        Seq::empty()
    } else {
        html_text_escape(s[0]) + spec_encode_text(s.drop_first())
    }
}

/// `html_escape::encode_text`: escapes `&` as `&amp;`, `<` as `&lt;` and
/// `>` as `&gt;`, leaving every other character as it is.
#[verifier::external_body]
pub fn html_encode_text(s: &str) -> (r: String)
    ensures
        r@ == spec_encode_text(s@),
{
    html_escape::encode_text(s).into_owned()
}

// ---------------------------------------------------------------------------
// pulldown-cmark
// ---------------------------------------------------------------------------

#[verifier::external_type_specification]
#[verifier::external_body]
pub struct ExParserEvent<'a>(pulldown_cmark::Event<'a>);

/// The event stream `pulldown_cmark::Parser::new_ext` produces for `text`
/// with strikethrough and math enabled, each event reduced to an `MdEvent`.
pub uninterp spec fn markdown_event_stream(text: Seq<char>) -> Seq<MdEventV>;

/// Converts a `Start` event, one arm per kind of tag that rendering distinguishes.
#[verifier::external_body]
fn md_start_event(e: pulldown_cmark::Event) -> MdEvent {
    match e {
        CmEvent::Start(CmTag::Paragraph) => MdEvent::ParagraphStart,
        CmEvent::Start(CmTag::Heading { .. }) => MdEvent::HeadingStart,
        CmEvent::Start(CmTag::Emphasis) => MdEvent::EmphasisStart,
        CmEvent::Start(CmTag::CodeBlock(_)) => MdEvent::CodeBlockStart,
        CmEvent::Start(CmTag::Image { dest_url, title, .. }) => MdEvent::ImageStart(dest_url.into_string(), title.into_string()),
        CmEvent::Start(CmTag::Link { dest_url, title, .. }) => MdEvent::LinkStart(dest_url.into_string(), title.into_string()),
        CmEvent::Start(CmTag::List(n)) => MdEvent::ListStart(n),
        CmEvent::Start(CmTag::Item) => MdEvent::ItemStart,
        _ => MdEvent::Other,
    }
}

/// Converts an `End` event, one arm per kind of tag that rendering distinguishes.
#[verifier::external_body]
fn md_end_event(e: pulldown_cmark::Event) -> MdEvent {
    match e {
        CmEvent::End(CmTagEnd::Paragraph) => MdEvent::ParagraphEnd,
        CmEvent::End(CmTagEnd::Heading(level)) => MdEvent::HeadingEnd(level as u8),
        CmEvent::End(CmTagEnd::Emphasis) => MdEvent::EmphasisEnd,
        CmEvent::End(CmTagEnd::CodeBlock) => MdEvent::CodeBlockEnd,
        CmEvent::End(CmTagEnd::Image) => MdEvent::ImageEnd,
        CmEvent::End(CmTagEnd::Link) => MdEvent::LinkEnd,
        CmEvent::End(CmTagEnd::List(_)) => MdEvent::ListEnd,
        CmEvent::End(CmTagEnd::Item) => MdEvent::ItemEnd,
        _ => MdEvent::Other,
    }
}

/// Converts one parser event, one arm per kind that rendering distinguishes.
#[verifier::external_body]
fn md_event(e: pulldown_cmark::Event) -> MdEvent {
    match e {
        CmEvent::Start(_) => md_start_event(e),
        CmEvent::End(_) => md_end_event(e),
        CmEvent::Text(t) => MdEvent::Text(t.into_string()),
        CmEvent::Code(t) => MdEvent::Code(t.into_string()),
        CmEvent::InlineMath(t) => MdEvent::InlineMath(t.into_string()),
        CmEvent::DisplayMath(t) => MdEvent::DisplayMath(t.into_string()),
        CmEvent::SoftBreak => MdEvent::SoftBreak,
        CmEvent::HardBreak => MdEvent::HardBreak,
        _ => MdEvent::Other,
    }
}

/// `pulldown_cmark::Parser::new_ext(text, ENABLE_STRIKETHROUGH | ENABLE_MATH)`:
/// the parse of `text`, event by event. What the parse is, is left to the
/// crate; the contract says only that it depends on `text` alone.
#[verifier::external_body]
pub(crate) fn markdown_events(text: &str) -> (r: Vec<MdEvent>)
    ensures
        md_events_view(r@) == markdown_event_stream(text@),
{
    let mut options = pulldown_cmark::Options::ENABLE_STRIKETHROUGH;
    options.insert(pulldown_cmark::Options::ENABLE_MATH);
    pulldown_cmark::Parser::new_ext(text, options).map(md_event).collect()
}

// ---------------------------------------------------------------------------
// serde_json
// ---------------------------------------------------------------------------

/// The string member `key` of the JSON object `text` parses to: `None` when
/// `text` is not JSON, is not an object, lacks `key`, or holds something
/// other than a string there.
pub uninterp spec fn json_string_member(text: Seq<char>, key: Seq<char>) -> Option<Seq<char>>;

/// `serde_json::from_str::<Value>(text)`, then `Value::get(key)` and
/// `Value::as_str`: the string stored under `key` in the object `text`
/// holds. What parsing accepts is left to the crate; the contract says
/// only that the result depends on `text` and `key` alone.
#[verifier::external_body]
pub(crate) fn json_str_member(text: &str, key: &str) -> (r: Option<String>)
    ensures
        match r {
            Some(s) => json_string_member(text@, key@) == Some(s@),
            None => json_string_member(text@, key@) is None,
        },
{
    let value: serde_json::Value = serde_json::from_str(text).ok()?;
    value.get(key).and_then(|v| v.as_str()).map(|s| s.to_string())
}

// ---------------------------------------------------------------------------
// std
// ---------------------------------------------------------------------------

/// `s` lower-cased by the Unicode `Lowercase` mapping.
pub uninterp spec fn unicode_lowercase(s: Seq<char>) -> Seq<char>;

/// `str::to_lowercase`: the Unicode lower-case of `s`. The mapping is left
/// to std; the contract says only that the result depends on `s` alone.
#[verifier::external_body]
pub(crate) fn to_lowercase(s: &str) -> (r: String)
    ensures
        r@ == unicode_lowercase(s@),
{
    s.to_lowercase()
}

/// `s` upper-cased by the Unicode `Uppercase` mapping.
pub uninterp spec fn unicode_uppercase(s: Seq<char>) -> Seq<char>;

/// `str::to_uppercase`: the Unicode upper-case of `s`. The mapping is left
/// to std; the contract says only that the result depends on `s` alone.
#[verifier::external_body]
pub(crate) fn to_uppercase(s: &str) -> (r: String)
    ensures
        r@ == unicode_uppercase(s@),
{
    s.to_uppercase()
}

} // verus!
