# aetheria

The browser side of the Aetheria roleplay chat client, with its decisions
proved correct by Verus.

## Layout

- `src/` is the verified library. Every function in it has a contract, and
  Verus proves each body against it:
  - `text`: character-level string primitives the rest builds on.
  - `reasoning`: splitting `<think>` blocks out of a reply.
  - `sanitize`, `safe_html`: the allow-list HTML of messages and cards,
    with safe links, styles and colours.
  - `markdown`: macro substitution, the time header, and message text
    turned into blocks to draw (the parse itself comes from `pulldown-cmark`).
  - `sse`: the event stream of a generation, block by block.
  - `chat_tree`, `chat_gen`: the message tree, its active branch and
    siblings, and the per-chat generation state.
  - `lorebooks`, `card_import`: importing a character card, and recognising
    a lorebook that was already imported.
  - `members`, `editors`, `ui`, `theme`: the decisions of the editors and
    settings screens.
  - `models`: the records the server exchanges.
  - `outside`: the calls into outside crates, each with the contract it is
    trusted to meet.
- `tests/` runs the library on concrete values.
- `app/` is the Leptos application around the library: requests, the
  event stream, storage, and the views.

Verus verifies the library from `src/lib.rs`; the tests are ordinary Rust tests.
