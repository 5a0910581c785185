use aetheria::safe_html::{extract_html_segments, strip_plot_momentum, HtmlNode, HtmlTag, TextOrHtml};
use aetheria::sanitize::{
    decode_entities, extract_attr, is_allowed_tag, resolve_style, sanitize_color_value, sanitize_style,
    sanitize_url,
};

#[test]
fn sanitize_url_keeps_http_and_https() {
    assert_eq!(sanitize_url("https://example.com/a.png"), Some("https://example.com/a.png".to_string()));
    assert_eq!(sanitize_url("http://example.com/a.png"), Some("http://example.com/a.png".to_string()));
}

#[test]
fn sanitize_url_rejects_javascript_scheme() {
    assert_eq!(sanitize_url("javascript:alert(1)"), None);
}

#[test]
fn sanitize_url_rejects_data_scheme() {
    assert_eq!(sanitize_url("data:text/html,<script>alert(1)</script>"), None);
}

#[test]
fn sanitize_url_rejects_relative_paths() {
    assert_eq!(sanitize_url("/tags/some-tag"), None);
}

#[test]
fn keeps_allowlisted_properties() {
    let out = sanitize_style("color: #ff0000; background: black; padding: 8px");
    assert_eq!(out, "color: #ff0000; background: black; padding: 8px");
}

#[test]
fn drops_url_based_values() {
    let out = sanitize_style("background: url(https://evil.example/track.png); color: red");
    assert_eq!(out, "color: red");
}

#[test]
fn drops_disallowed_properties() {
    let out = sanitize_style("position: fixed; color: red");
    assert_eq!(out, "color: red");
}

#[test]
fn strips_plot_momentum_block_and_keeps_surrounding_text() {
    let text = "*She smiles.* \"Good morning.\"\n\n<details><summary>Plot Momentum</summary>\nNext beat: she reveals the letter.\n</details>";
    let out = strip_plot_momentum(text);
    assert_eq!(out, "*She smiles.* \"Good morning.\"\n\n");
}

#[test]
fn leaves_unrelated_details_blocks_alone() {
    let text = "<details><summary>Spoiler</summary>plot twist here</details>";
    let out = strip_plot_momentum(text);
    assert_eq!(out, text);
}

#[test]
fn sanitize_url_trims_and_accepts_an_upper_case_scheme() {
    assert_eq!(sanitize_url("  HTTPS://Example.com  "), Some("HTTPS://Example.com".to_string()));
}

#[test]
fn allowed_tags_are_the_formatting_ones() {
    assert!(is_allowed_tag("div"));
    assert!(is_allowed_tag("font"));
    assert!(!is_allowed_tag("script"));
}

#[test]
fn entities_are_decoded() {
    assert_eq!(decode_entities("a &amp; b &lt;c&gt;"), "a & b <c>");
}

#[test]
fn attributes_are_read_by_name() {
    assert_eq!(extract_attr("<font color=\"red\" size=2>", "color"), Some("red".to_string()));
    assert_eq!(extract_attr("<font color=\"red\">", "face"), None);
}

#[test]
fn colour_values_are_checked() {
    assert_eq!(sanitize_color_value("#ff0000"), Some("#ff0000".to_string()));
    assert_eq!(sanitize_color_value("red;background:url(x)"), None);
}

#[test]
fn font_colour_becomes_a_style() {
    let style = resolve_style("<font color=\"red\">");
    assert!(style.contains("color: red"), "got {style}");
}

#[test]
fn plain_text_is_one_segment() {
    let segs = extract_html_segments("just *markdown* here", false);
    assert_eq!(segs.len(), 1);
    match &segs[0] {
        TextOrHtml::Text(t) => assert_eq!(t, "just *markdown* here"),
        other => panic!("unexpected segment {other:?}"),
    }
}

#[test]
fn a_div_is_pulled_out_as_an_element() {
    let segs = extract_html_segments("before <div style=\"color: red\">inside</div> after", false);
    assert_eq!(segs.len(), 3);
    match &segs[1] {
        TextOrHtml::Html(HtmlNode::Element { tag, style, children }) => {
            assert_eq!(*tag, HtmlTag::Div);
            assert_eq!(style, "color: red");
            assert_eq!(children.len(), 1);
        }
        other => panic!("unexpected segment {other:?}"),
    }
}

#[test]
fn a_javascript_anchor_is_not_a_link() {
    let segs = extract_html_segments("<a href=\"javascript:alert(1)\">click</a>", false);
    let has_link = segs.iter().any(|s| matches!(s, TextOrHtml::Html(HtmlNode::Link { .. })));
    assert!(!has_link, "got {segs:?}");
}

#[test]
fn sanitizing_a_style_twice_changes_nothing() {
    for raw in [
        "COLOR : Red ;; background-image: url(x); font-size:12px; margin: 0 auto ",
        "color: a:b; ; width:",
        "",
        "  text-align :center;opacity: .5",
    ] {
        let once = sanitize_style(raw);
        assert_eq!(sanitize_style(&once), once, "{raw:?}");
    }
    assert_eq!(sanitize_style("COLOR : Red ;font-size:12px"), "color: Red; font-size: 12px");
}
