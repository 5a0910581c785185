use aetheria::markdown::{
    extract_leading_time_header, math_fallback_html, render_markdown, render_markdown_blocks,
    substitute_macros, MdNode, RenderedBlock,
};

#[test]
fn substitutes_char_and_user_macros() {
    let result = substitute_macros("{{char}} looks at {{user}}.", "Seraphina", "Testuser");
    assert_eq!(result, "Seraphina looks at Testuser.");
}

#[test]
fn name_macro_is_an_alias_for_char() {
    let result = substitute_macros("{{name}} nods.", "Seraphina", "Testuser");
    assert_eq!(result, "Seraphina nods.");
}

#[test]
fn extracts_leading_time_header() {
    let (header, rest) = extract_leading_time_header(
        "`[ 🕰️ Morning, Day 3 - The Whispering Cafe ]`\n\n*She looks up.*",
    )
    .expect("should detect the leading header");
    assert_eq!(header, "🕰️ Morning, Day 3 - The Whispering Cafe");
    assert_eq!(rest, "\n\n*She looks up.*");
}

#[test]
fn does_not_treat_a_regular_code_span_as_a_time_header() {
    assert!(extract_leading_time_header("`let x = 1;` is code.").is_none());
}

#[test]
fn does_not_treat_a_mid_message_bracket_span_as_a_header() {
    assert!(extract_leading_time_header("She said `[laughs]` and left.").is_none());
}

#[test]
fn single_brace_and_capitalised_macros_are_substituted() {
    let result = substitute_macros("{Char} and {User} and {{User}}", "A", "B");
    assert_eq!(result, "A and B and B");
}

fn text_of(nodes: &[MdNode]) -> String {
    let mut out = String::new();
    for n in nodes {
        match n {
            MdNode::Paragraph(c) | MdNode::Heading(_, c) | MdNode::Item(c) | MdNode::List(_, c) | MdNode::Inert(c) => {
                out.push_str(&text_of(c))
            }
            MdNode::Link { children, .. } => out.push_str(&text_of(children)),
            MdNode::Text(s) | MdNode::Quote(s) | MdNode::QuoteEmph(s) | MdNode::Emph(s) | MdNode::Code(s) | MdNode::CodeBlock(s) => {
                out.push_str(s)
            }
            _ => {}
        }
    }
    out
}

#[test]
fn heading_text_survives_between_paragraphs() {
    let blocks = render_markdown_blocks("Before paragraph.\n\n# A Heading\n\nAfter paragraph.", false);
    assert_eq!(blocks.len(), 3, "got {blocks:?}");
    assert!(matches!(&blocks[1], MdNode::Heading(1, _)), "got {blocks:?}");
    assert_eq!(text_of(&blocks[1..2]), "A Heading");
}

#[test]
fn loose_list_items_keep_their_paragraph_inside_the_item() {
    let blocks = render_markdown_blocks("- one\n\n- two\n", false);
    assert_eq!(blocks.len(), 1, "got {blocks:?}");
    match &blocks[0] {
        MdNode::List(None, items) => {
            assert_eq!(items.len(), 2);
            assert_eq!(text_of(&items[0..1]), "one");
            assert_eq!(text_of(&items[1..2]), "two");
        }
        other => panic!("expected a list, got {other:?}"),
    }
}

#[test]
fn list_item_with_a_fenced_code_block_keeps_it_inside() {
    let blocks = render_markdown_blocks("- item with code:\n\n  ```\n  let x = 1;\n  ```\n", false);
    assert_eq!(blocks.len(), 1, "got {blocks:?}");
    match &blocks[0] {
        MdNode::List(_, items) => {
            assert_eq!(items.len(), 1);
            match &items[0] {
                MdNode::Item(inner) => {
                    assert!(inner.iter().any(|n| matches!(n, MdNode::CodeBlock(c) if c.trim() == "let x = 1;")), "got {inner:?}");
                }
                other => panic!("expected an item, got {other:?}"),
            }
        }
        other => panic!("expected a list, got {other:?}"),
    }
}

#[test]
fn a_javascript_scheme_link_renders_inert() {
    let blocks = render_markdown_blocks("[click me](javascript:alert(1))", false);
    let text = text_of(&blocks);
    assert!(text.contains("click me"));
    match &blocks[0] {
        MdNode::Paragraph(c) => assert!(matches!(&c[0], MdNode::Inert(_)), "got {c:?}"),
        other => panic!("expected a paragraph, got {other:?}"),
    }
}

#[test]
fn an_https_link_renders_as_a_link() {
    let blocks = render_markdown_blocks("[click me](https://example.com/)", false);
    match &blocks[0] {
        MdNode::Paragraph(c) => match &c[0] {
            MdNode::Link { href, .. } => assert_eq!(href, "https://example.com/"),
            other => panic!("expected a link, got {other:?}"),
        },
        other => panic!("expected a paragraph, got {other:?}"),
    }
}

#[test]
fn quoted_speech_and_emphasis_are_marked() {
    let blocks = render_markdown_blocks("He said \"hi\" and *left \"now\"*", false);
    match &blocks[0] {
        MdNode::Paragraph(c) => {
            assert!(c.iter().any(|n| matches!(n, MdNode::Quote(s) if s == "\"hi\"")), "got {c:?}");
            assert!(c.iter().any(|n| matches!(n, MdNode::QuoteEmph(s) if s == "\"now\"")), "got {c:?}");
            assert!(c.iter().any(|n| matches!(n, MdNode::Emph(s) if s == "left ")), "got {c:?}");
        }
        other => panic!("expected a paragraph, got {other:?}"),
    }
}

#[test]
fn images_go_through_the_proxy_unless_media_is_forbidden() {
    let shown = render_markdown_blocks("![alt](https://x.test/ab.png)", false);
    let text = format!("{shown:?}");
    assert!(text.contains("/api/proxy?url="), "got {text}");
    let hidden = render_markdown_blocks("![alt](https://x.test/a.png)", true);
    assert!(!format!("{hidden:?}").contains("Image"), "got {hidden:?}");
}

#[test]
fn image_address_is_percent_encoded() {
    let blocks = render_markdown_blocks("![alt](https://x.test/a.png)", false);
    match &blocks[0] {
        MdNode::Paragraph(c) => match &c[0] {
            MdNode::Image { src, .. } => assert_eq!(src, "/api/proxy?url=https%3A%2F%2Fx.test%2Fa.png"),
            other => panic!("expected an image, got {other:?}"),
        },
        other => panic!("expected a paragraph, got {other:?}"),
    }
}

#[test]
fn ordered_lists_keep_their_start() {
    let blocks = render_markdown_blocks("3. three\n4. four\n", false);
    assert!(matches!(&blocks[0], MdNode::List(Some(3), items) if items.len() == 2), "got {blocks:?}");
}

#[test]
fn a_message_splits_into_header_html_and_markdown() {
    let blocks = render_markdown("`[ Noon ]`\nHello {{user}} <div>boxed</div> bye", "Sera", "Ann", false);
    assert!(matches!(&blocks[0], RenderedBlock::TimeHeader(h) if h == "Noon"), "got {blocks:?}");
    assert!(blocks.iter().any(|b| matches!(b, RenderedBlock::Html(_))), "got {blocks:?}");
    let dbg = format!("{blocks:?}");
    assert!(dbg.contains("Hello Ann"), "got {dbg}");
}

#[test]
fn plot_momentum_is_not_rendered() {
    let blocks = render_markdown("Hi<details><summary>Plot Momentum</summary>secret</details>", "", "", false);
    assert!(!format!("{blocks:?}").contains("secret"));
}

#[test]
fn math_falls_back_to_escaped_source() {
    assert_eq!(math_fallback_html("a<b", false), "<span class=\"math math-inline\">a&lt;b</span>");
    assert_eq!(
        math_fallback_html("x&y", true),
        "<div class=\"math math-display\" style=\"text-align: center; margin: 1em 0;\">x&amp;y</div>"
    );
}

#[test]
fn test_cmark() {
    let md = "![](https://cdn.imgchest.com/files/dbb29f5f2455.png)";
    let parser = pulldown_cmark::Parser::new_ext(md, pulldown_cmark::Options::ENABLE_STRIKETHROUGH);
    for event in parser {
        println!("{:?}", event);
    }
    let blocks = render_markdown_blocks(md, false);
    println!("{:?}", blocks);
    match &blocks[0] {
        MdNode::Paragraph(c) => assert!(
            matches!(&c[0], MdNode::Image { src, .. }
                if src == "/api/proxy?url=https%3A%2F%2Fcdn.imgchest.com%2Ffiles%2Fdbb29f5f2455.png"),
            "got {c:?}"
        ),
        other => panic!("expected a paragraph, got {other:?}"),
    }
}
