//! The HTML subset messages and cards may carry, parsed into a tree of
//! sanitized elements: only allow-listed tags survive, links and images keep
//! only `http(s)` URLs (images go through the proxy), styles keep only safe
//! declarations, and everything else is kept as literal text.

use vstd::prelude::*;
use crate::text::{
    chars_eq, contains, find, find_from, find_from_exec, from_chars, is_ws, is_whitespace, lemma_find_from,
    lemma_find_from_shift, lower, lower_exec, push_all, slice_vec, starts_with, starts_with_at,
    to_chars, trim, trim_range,
};
use crate::sanitize::{
    decode_entities_chars, extract_attr_chars, lemma_open_tag_bounds, parse_open_tag_at,
    resolve_style_chars, sanitize_url_chars, spec_decode_entities, spec_extract_attr,
    spec_is_allowed_tag, spec_parse_open_tag, spec_resolve_style, spec_sanitize_url,
    is_allowed_tag_chars,
};
use crate::outside::{spec_url_encode, url_encode};

verus! {

/// The elements an allowed tag can become.
#[derive(Clone, Copy, PartialEq, Eq, Debug)]
pub enum HtmlTag {
    Div,
    Span,
    P,
    Strong,
    Em,
    U,
    Small,
    H1,
    H2,
    H3,
}

/// A sanitized HTML node.
#[derive(Debug)]
pub enum HtmlNode {
    /// Literal text (entities already decoded).
    Text(String),
    /// A container element with its sanitized style.
    Element { tag: HtmlTag, style: String, children: Vec<HtmlNode> },
    /// A link to an `http(s)` URL, opened in a new tab.
    Link { href: String, style: String, children: Vec<HtmlNode> },
    /// An image loaded through the proxy.
    Image { src: String, style: String },
    /// Renders as nothing.
    Nothing,
}

/// The mathematical form of an `HtmlNode`.
pub enum HtmlNodeV {
    Text(Seq<char>),
    Element { tag: HtmlTag, style: Seq<char>, children: Seq<HtmlNodeV> },
    Link { href: Seq<char>, style: Seq<char>, children: Seq<HtmlNodeV> },
    Image { src: Seq<char>, style: Seq<char> },
    Nothing,
}

/// The view of a node.
pub open spec fn node_view(n: HtmlNode) -> HtmlNodeV
    decreases n,
{
    match n {
        HtmlNode::Text(s) => HtmlNodeV::Text(s@),
        HtmlNode::Element { tag, style, children } => HtmlNodeV::Element {
            tag,
            style: style@,
            children: nodes_view(children@),
        },
        HtmlNode::Link { href, style, children } => HtmlNodeV::Link {
            href: href@,
            style: style@,
            children: nodes_view(children@),
        },
        HtmlNode::Image { src, style } => HtmlNodeV::Image { src: src@, style: style@ },
        HtmlNode::Nothing => HtmlNodeV::Nothing,
    }
}

/// The views of a sequence of nodes.
pub open spec fn nodes_view(v: Seq<HtmlNode>) -> Seq<HtmlNodeV>
    decreases v,
{
    Seq::new(
        v.len(),
        |i: int|
            if 0 <= i < v.len() {
                node_view(v[i])
            } else {
                HtmlNodeV::Nothing
            },
    )
}

proof fn lemma_nodes_view_push(v: Seq<HtmlNode>, n: HtmlNode)
    ensures
        nodes_view(v.push(n)) == nodes_view(v).push(node_view(n)),
{
    assert(nodes_view(v.push(n)) =~= nodes_view(v).push(node_view(n)));
}

/// The view of an optional character vector.
pub open spec fn opt_view(o: Option<Vec<char>>) -> Option<Seq<char>> {
    match o {
        Some(v) => Some(v@),
        None => None,
    }
}

// ---------------------------------------------------------------------------
// element construction
// ---------------------------------------------------------------------------

/// The path images are loaded through.
pub open spec fn proxy_prefix() -> Seq<char> {
    seq!['/', 'a', 'p', 'i', '/', 'p', 'r', 'o', 'x', 'y', '?', 'u', 'r', 'l', '=']
}

/// The proxied address of the image at `url`.
pub open spec fn proxy_url(url: Seq<char>) -> Seq<char> {
    proxy_prefix() + spec_url_encode(url)
}

/// The default width cap every raw image gets before its own style.
pub open spec fn image_style_prefix() -> Seq<char> {
    seq!['m', 'a', 'x', '-', 'w', 'i', 'd', 't', 'h', ':', ' ', '1', '0', '0', '%', ';', ' ']
}

/// The element an allowed tag `name` becomes.  `href`/`src` are already
/// sanitized; a link without a usable `href` becomes a plain span, an image
/// without a usable `src` (or with media forbidden) becomes nothing, and a
/// `br` renders as an empty span.
pub open spec fn spec_render_element(
    name: Seq<char>,
    style: Seq<char>,
    children: Seq<HtmlNodeV>,
    href: Option<Seq<char>>,
    src: Option<Seq<char>>,
    forbid_media: bool,
) -> HtmlNodeV {
    if name == seq!['d', 'i', 'v'] {
        HtmlNodeV::Element { tag: HtmlTag::Div, style, children }
    } else if name == seq!['s', 'p', 'a', 'n'] || name == seq!['f', 'o', 'n', 't'] {
        HtmlNodeV::Element { tag: HtmlTag::Span, style, children }
    } else if name == seq!['p'] {
        HtmlNodeV::Element { tag: HtmlTag::P, style, children }
    } else if name == seq!['s', 't', 'r', 'o', 'n', 'g'] || name == seq!['b'] {
        HtmlNodeV::Element { tag: HtmlTag::Strong, style, children }
    } else if name == seq!['e', 'm'] || name == seq!['i'] {
        HtmlNodeV::Element { tag: HtmlTag::Em, style, children }
    } else if name == seq!['u'] {
        HtmlNodeV::Element { tag: HtmlTag::U, style, children }
    } else if name == seq!['s', 'm', 'a', 'l', 'l'] {
        HtmlNodeV::Element { tag: HtmlTag::Small, style, children }
    } else if name == seq!['h', '1'] {
        HtmlNodeV::Element { tag: HtmlTag::H1, style, children }
    } else if name == seq!['h', '2'] {
        HtmlNodeV::Element { tag: HtmlTag::H2, style, children }
    } else if name == seq!['h', '3'] {
        HtmlNodeV::Element { tag: HtmlTag::H3, style, children }
    } else if name == seq!['a'] {
        match href {
            Some(h) => HtmlNodeV::Link { href: h, style, children },
            None => HtmlNodeV::Element { tag: HtmlTag::Span, style, children },
        }
    } else if name == seq!['i', 'm', 'g'] {
        if forbid_media {
            HtmlNodeV::Nothing
        } else {
            match src {
                Some(s) => HtmlNodeV::Image { src: proxy_url(s), style: image_style_prefix() + style },
                None => HtmlNodeV::Nothing,
            }
        }
    } else {
        HtmlNodeV::Element { tag: HtmlTag::Span, style, children }
    }
}

/// The element an allowed tag becomes (executable).
pub fn render_element(
    name: &[char],
    style: Vec<char>,
    children: Vec<HtmlNode>,
    href: Option<Vec<char>>,
    src: Option<Vec<char>>,
    forbid_media: bool,
) -> (r: HtmlNode)
    ensures
        node_view(r) == spec_render_element(
            name@,
            style@,
            nodes_view(children@),
            opt_view(href),
            opt_view(src),
            forbid_media,
        ),
{
    let st = from_chars(&style);
    let n_div = ['d', 'i', 'v'];
    let n_span = ['s', 'p', 'a', 'n'];
    let n_font = ['f', 'o', 'n', 't'];
    let n_p = ['p'];
    let n_strong = ['s', 't', 'r', 'o', 'n', 'g'];
    let n_b = ['b'];
    let n_em = ['e', 'm'];
    let n_i = ['i'];
    let n_u = ['u'];
    let n_small = ['s', 'm', 'a', 'l', 'l'];
    let n_h1 = ['h', '1'];
    let n_h2 = ['h', '2'];
    let n_h3 = ['h', '3'];
    let n_a = ['a'];
    let n_img = ['i', 'm', 'g'];
    proof {
        assert(n_div@ =~= seq!['d', 'i', 'v']);
        assert(n_span@ =~= seq!['s', 'p', 'a', 'n']);
        assert(n_font@ =~= seq!['f', 'o', 'n', 't']);
        assert(n_p@ =~= seq!['p']);
        assert(n_strong@ =~= seq!['s', 't', 'r', 'o', 'n', 'g']);
        assert(n_b@ =~= seq!['b']);
        assert(n_em@ =~= seq!['e', 'm']);
        assert(n_i@ =~= seq!['i']);
        assert(n_u@ =~= seq!['u']);
        assert(n_small@ =~= seq!['s', 'm', 'a', 'l', 'l']);
        assert(n_h1@ =~= seq!['h', '1']);
        assert(n_h2@ =~= seq!['h', '2']);
        assert(n_h3@ =~= seq!['h', '3']);
        assert(n_a@ =~= seq!['a']);
        assert(n_img@ =~= seq!['i', 'm', 'g']);
    }
    if chars_eq(name, &n_div) {
        HtmlNode::Element { tag: HtmlTag::Div, style: st, children }
    } else if chars_eq(name, &n_span) || chars_eq(name, &n_font) {
        HtmlNode::Element { tag: HtmlTag::Span, style: st, children }
    } else if chars_eq(name, &n_p) {
        HtmlNode::Element { tag: HtmlTag::P, style: st, children }
    } else if chars_eq(name, &n_strong) || chars_eq(name, &n_b) {
        HtmlNode::Element { tag: HtmlTag::Strong, style: st, children }
    } else if chars_eq(name, &n_em) || chars_eq(name, &n_i) {
        HtmlNode::Element { tag: HtmlTag::Em, style: st, children }
    } else if chars_eq(name, &n_u) {
        HtmlNode::Element { tag: HtmlTag::U, style: st, children }
    } else if chars_eq(name, &n_small) {
        HtmlNode::Element { tag: HtmlTag::Small, style: st, children }
    } else if chars_eq(name, &n_h1) {
        HtmlNode::Element { tag: HtmlTag::H1, style: st, children }
    } else if chars_eq(name, &n_h2) {
        HtmlNode::Element { tag: HtmlTag::H2, style: st, children }
    } else if chars_eq(name, &n_h3) {
        HtmlNode::Element { tag: HtmlTag::H3, style: st, children }
    } else if chars_eq(name, &n_a) {
        match href {
            Some(h) => HtmlNode::Link { href: from_chars(&h), style: st, children },
            None => HtmlNode::Element { tag: HtmlTag::Span, style: st, children },
        }
    } else if chars_eq(name, &n_img) {
        if forbid_media {
            HtmlNode::Nothing
        } else {
            match src {
                Some(s) => {
                    let url = from_chars(&s);
                    let enc = url_encode(url.as_str());
                    let enc_chars = to_chars(enc.as_str());
                    let mut full = vec![
                        '/',
                        'a',
                        'p',
                        'i',
                        '/',
                        'p',
                        'r',
                        'o',
                        'x',
                        'y',
                        '?',
                        'u',
                        'r',
                        'l',
                        '=',
                    ];
                    push_all(&mut full, &enc_chars);
                    let mut img_style = vec![
                        'm',
                        'a',
                        'x',
                        '-',
                        'w',
                        'i',
                        'd',
                        't',
                        'h',
                        ':',
                        ' ',
                        '1',
                        '0',
                        '0',
                        '%',
                        ';',
                        ' ',
                    ];
                    push_all(&mut img_style, &style);
                    proof {
                        assert(full@ =~= proxy_url(s@));
                        assert(img_style@ =~= image_style_prefix() + style@);
                    }
                    HtmlNode::Image { src: from_chars(&full), style: from_chars(&img_style) }
                },
                None => HtmlNode::Nothing,
            }
        }
    } else {
        HtmlNode::Element { tag: HtmlTag::Span, style: st, children }
    }
}

/// `href` of an `a` open tag, sanitized; `None` for every other tag.
pub open spec fn spec_href_of(name: Seq<char>, tag: Seq<char>) -> Option<Seq<char>> {
    if name == seq!['a'] {
        match spec_extract_attr(tag, seq!['h', 'r', 'e', 'f']) {
            Some(h) => spec_sanitize_url(h),
            None => None,
        }
    } else {
        None
    }
}

/// `src` of an `img` open tag, sanitized; `None` for every other tag.
pub open spec fn spec_src_of(name: Seq<char>, tag: Seq<char>) -> Option<Seq<char>> {
    if name == seq!['i', 'm', 'g'] {
        match spec_extract_attr(tag, seq!['s', 'r', 'c']) {
            Some(h) => spec_sanitize_url(h),
            None => None,
        }
    } else {
        None
    }
}

/// The sanitized URL attribute `attr` of `tag` when `name` is `want`.
fn url_attr_if(name: &[char], want: &[char], tag: &[char], attr: &[char]) -> (r: Option<Vec<char>>)
    requires
        attr@.len() > 0,
    ensures
        opt_view(r) == (if name@ == want@ {
            match spec_extract_attr(tag@, attr@) {
                Some(h) => spec_sanitize_url(h),
                None => None,
            }
        } else {
            None
        }),
{
    if !chars_eq(name, want) {
        return None;
    }
    match extract_attr_chars(tag, attr) {
        Some(h) => sanitize_url_chars(&h),
        None => None,
    }
}

/// The element the open tag `tag` (name `name`) with `children` becomes.
pub open spec fn spec_element_for(
    name: Seq<char>,
    tag: Seq<char>,
    children: Seq<HtmlNodeV>,
    forbid_media: bool,
) -> HtmlNodeV {
    spec_render_element(
        name,
        spec_resolve_style(tag),
        children,
        spec_href_of(name, tag),
        spec_src_of(name, tag),
        forbid_media,
    )
}

/// The element an open tag with its children becomes (executable).
fn element_for(name: &[char], tag: &[char], children: Vec<HtmlNode>, forbid_media: bool) -> (r:
    HtmlNode)
    ensures
        node_view(r) == spec_element_for(name@, tag@, nodes_view(children@), forbid_media),
{
    let style = resolve_style_chars(tag);
    let a = ['a'];
    let img = ['i', 'm', 'g'];
    let href_a = ['h', 'r', 'e', 'f'];
    let src_a = ['s', 'r', 'c'];
    proof {
        assert(a@ =~= seq!['a']);
        assert(img@ =~= seq!['i', 'm', 'g']);
        assert(href_a@ =~= seq!['h', 'r', 'e', 'f']);
        assert(src_a@ =~= seq!['s', 'r', 'c']);
    }
    let href = url_attr_if(name, &a, tag, &href_a);
    let src = url_attr_if(name, &img, tag, &src_a);
    render_element(name, style, children, href, src, forbid_media)
}

// ---------------------------------------------------------------------------
// parsing children
// ---------------------------------------------------------------------------

/// `<!--`
pub open spec fn comment_open() -> Seq<char> {
    seq!['<', '!', '-', '-']
}

/// `-->`
pub open spec fn comment_close() -> Seq<char> {
    seq!['-', '-', '>']
}

/// `</`
pub open spec fn close_open() -> Seq<char> {
    seq!['<', '/']
}

/// `out` with the pending literal `text` (entities decoded) appended, if any.
pub open spec fn flush(out: Seq<HtmlNodeV>, text: Seq<char>) -> Seq<HtmlNodeV> {
    if text.len() > 0 {
        out.push(HtmlNodeV::Text(spec_decode_entities(text)))
    } else {
        out
    }
}

/// An allowed open tag starts at index `pos` of `src`.
pub open spec fn allowed_open_tag_at(src: Seq<char>, pos: int) -> bool {
    match spec_parse_open_tag(src, pos) {
        Some(t) => spec_is_allowed_tag(t.0),
        None => false,
    }
}

/// The tag is one that never has children: written self-closing, `br`, or `img`.
pub open spec fn is_void(name: Seq<char>, self_close: bool) -> bool {
    self_close || name == seq!['b', 'r'] || name == seq!['i', 'm', 'g']
}

/// Parsing the contents of an element from index `pos` of `src` until its
/// closing tag `closing` (compared case-insensitively) or the end of input,
/// with literal `text` pending and nodes `out` already produced: comments
/// are dropped, other closing tags are skipped, allowed open tags become
/// sanitized elements (their own contents parsed recursively), and every
/// other character — a `<` that starts no allowed tag included — is text.
/// Returns the nodes and the index just past the closing tag (or the end).
pub open spec fn parse_children_from(
    src: Seq<char>,
    pos: int,
    closing: Seq<char>,
    forbid_media: bool,
    text: Seq<char>,
    out: Seq<HtmlNodeV>,
) -> (Seq<HtmlNodeV>, int)
    decreases src.len() - pos,
{
    if pos < 0 || pos >= src.len() {
        (flush(out, text), pos)
    } else {
        let rest = src.skip(pos);
        if starts_with(rest, comment_open()) {
            match find(rest, comment_close()) {
                Some(e) => if 0 <= e && pos + e + 3 <= src.len() {
                    parse_children_from(src, pos + e + 3, closing, forbid_media, text, out)
                } else {
                    (flush(out, text), pos)
                },
                None => parse_children_from(src, src.len() as int, closing, forbid_media, text, out),
            }
        } else if starts_with(rest, close_open()) {
            match find(rest, seq!['>']) {
                Some(gt) => if 2 <= gt < rest.len() {
                    if lower(trim(rest.subrange(2, gt))) == lower(closing) {
                        (flush(out, text), pos + gt + 1)
                    } else {
                        parse_children_from(src, pos + gt + 1, closing, forbid_media, text, out)
                    }
                } else {
                    (flush(out, text), pos)
                },
                None => (flush(out, text), src.len() as int),
            }
        } else if rest[0] == '<' && allowed_open_tag_at(src, pos) {
            let t = spec_parse_open_tag(src, pos)->0;
            let name = t.0;
            let end = t.1;
            let out1 = flush(out, text);
            let tag = src.subrange(pos, end);
            proof {
                lemma_open_tag_bounds(src, pos);
            }
            if end <= pos {
                (out1, pos)
            } else if is_void(name, t.2) {
                parse_children_from(
                    src,
                    end,
                    closing,
                    forbid_media,
                    Seq::empty(),
                    out1.push(spec_element_for(name, tag, Seq::empty(), forbid_media)),
                )
            } else {
                let inner = parse_children_from(
                    src,
                    end,
                    name,
                    forbid_media,
                    Seq::empty(),
                    Seq::empty(),
                );
                let next = if end < inner.1 <= src.len() {
                    inner.1
                } else {
                    end
                };
                parse_children_from(
                    src,
                    next,
                    closing,
                    forbid_media,
                    Seq::empty(),
                    out1.push(spec_element_for(name, tag, inner.0, forbid_media)),
                )
            }
        } else {
            parse_children_from(src, pos + 1, closing, forbid_media, text.push(rest[0]), out)
        }
    }
}

/// What `parse_children` returns for the contents starting at `pos`.
pub open spec fn spec_parse_children(src: Seq<char>, pos: int, closing: Seq<char>, forbid_media: bool) -> (
    Seq<HtmlNodeV>,
    int,
) {
    parse_children_from(src, pos, closing, forbid_media, Seq::empty(), Seq::empty())
}

/// The position `parse_children_from` stops at lies between its start and the end.
pub proof fn lemma_parse_children_pos(
    src: Seq<char>,
    pos: int,
    closing: Seq<char>,
    fm: bool,
    text: Seq<char>,
    out: Seq<HtmlNodeV>,
)
    requires
        0 <= pos <= src.len(),
    ensures
        pos <= parse_children_from(src, pos, closing, fm, text, out).1 <= src.len(),
    decreases src.len() - pos,
{
    if pos < src.len() {
        let rest = src.skip(pos);
        if starts_with(rest, comment_open()) {
            lemma_find_from(rest, comment_close(), 0);
            match find(rest, comment_close()) {
                Some(e) => {
                    lemma_parse_children_pos(src, pos + e + 3, closing, fm, text, out);
                },
                None => {
                    lemma_parse_children_pos(src, src.len() as int, closing, fm, text, out);
                },
            }
        } else if starts_with(rest, close_open()) {
            lemma_find_from(rest, seq!['>'], 0);
            match find(rest, seq!['>']) {
                Some(gt) => if 2 <= gt < rest.len() {
                    if lower(trim(rest.subrange(2, gt))) != lower(closing) {
                        lemma_parse_children_pos(src, pos + gt + 1, closing, fm, text, out);
                    }
                },
                None => {},
            }
        } else if rest[0] == '<' && allowed_open_tag_at(src, pos) {
            let t = spec_parse_open_tag(src, pos)->0;
            lemma_open_tag_bounds(src, pos);
            let out1 = flush(out, text);
            let tag = src.subrange(pos, t.1);
            if is_void(t.0, t.2) {
                lemma_parse_children_pos(
                    src,
                    t.1,
                    closing,
                    fm,
                    Seq::empty(),
                    out1.push(spec_element_for(t.0, tag, Seq::empty(), fm)),
                );
            } else {
                lemma_parse_children_pos(src, t.1, t.0, fm, Seq::empty(), Seq::empty());
                let inner = parse_children_from(src, t.1, t.0, fm, Seq::empty(), Seq::empty());
                lemma_parse_children_pos(
                    src,
                    inner.1,
                    closing,
                    fm,
                    Seq::empty(),
                    out1.push(spec_element_for(t.0, tag, inner.0, fm)),
                );
            }
        } else {
            lemma_parse_children_pos(src, pos + 1, closing, fm, text.push(rest[0]), out);
        }
    }
}

/// Appends the pending text (decoded) as a node when there is any.
fn flush_exec(out: &mut Vec<HtmlNode>, text: &mut Vec<char>)
    ensures
        nodes_view(final(out)@) == flush(nodes_view(old(out)@), old(text)@),
        final(text)@.len() == 0,
{
    if text.len() > 0 {
        let decoded = decode_entities_chars(text);
        let node = HtmlNode::Text(from_chars(&decoded));
        proof {
            lemma_nodes_view_push(out@, node);
        }
        out.push(node);
        *text = Vec::new();
    }
}

/// Consumes the allowed open tag `t` at `pos`: flushes pending text, builds
/// the element (parsing its contents unless it is void) and returns where
/// parsing continues.
fn open_tag_step(
    src: &[char],
    pos: usize,
    closing: &[char],
    forbid_media: bool,
    t: crate::sanitize::OpenTag,
    out: &mut Vec<HtmlNode>,
    text: &mut Vec<char>,
) -> (np: usize)
    requires
        pos < src@.len(),
        src@[pos as int] == '<',
        spec_parse_open_tag(src@, pos as int) == Some((t.name@, t.end as int, t.self_close)),
        spec_is_allowed_tag(t.name@),
    ensures
        pos < np <= src@.len(),
        parse_children_from(src@, pos as int, closing@, forbid_media, old(text)@, nodes_view(old(out)@))
            == parse_children_from(
            src@,
            np as int,
            closing@,
            forbid_media,
            final(text)@,
            nodes_view(final(out)@),
        ),
    decreases src@.len() - pos, 0int,
{
    proof {
        lemma_open_tag_bounds(src@, pos as int);
        assert(src@.skip(pos as int)[0] == '<');
        assert(allowed_open_tag_at(src@, pos as int));
        let rest = src@.skip(pos as int);
        assert(rest[1] == src@[pos + 1]);
        assert(crate::text::is_ascii_alnum(rest[1]));
        assert(!starts_with(rest, comment_open())) by {
            if starts_with(rest, comment_open()) {
                assert(rest.subrange(0, 4)[1] == rest[1]);
            }
        }
        assert(!starts_with(rest, close_open())) by {
            if starts_with(rest, close_open()) {
                assert(rest.subrange(0, 2)[1] == rest[1]);
            }
        }
    }
    let ghost out0 = nodes_view(out@);
    let ghost text0 = text@;
    flush_exec(out, text);
    let ghost out1 = nodes_view(out@);
    proof {
        assert(out1 == flush(out0, text0));
        assert(text@ =~= Seq::<char>::empty());
    }
    let tag = slice_vec(src, pos, t.end);
    let br = ['b', 'r'];
    let img = ['i', 'm', 'g'];
    proof {
        assert(br@ =~= seq!['b', 'r']);
        assert(img@ =~= seq!['i', 'm', 'g']);
    }
    if t.self_close || chars_eq(&t.name, &br) || chars_eq(&t.name, &img) {
        let empty: Vec<HtmlNode> = Vec::new();
        proof {
            assert(nodes_view(empty@) =~= Seq::<HtmlNodeV>::empty());
        }
        let node = element_for(&t.name, &tag, empty, forbid_media);
        proof {
            lemma_nodes_view_push(out@, node);
            assert(is_void(t.name@, t.self_close));
            assert(parse_children_from(src@, pos as int, closing@, forbid_media, text0, out0)
                == parse_children_from(
                src@,
                t.end as int,
                closing@,
                forbid_media,
                Seq::empty(),
                out1.push(spec_element_for(t.name@, tag@, Seq::empty(), forbid_media)),
            ));
        }
        out.push(node);
        t.end
    } else {
        let (children, np) = parse_children(src, t.end, &t.name, forbid_media);
        let node = element_for(&t.name, &tag, children, forbid_media);
        proof {
            lemma_nodes_view_push(out@, node);
            assert(!is_void(t.name@, t.self_close));
            let inner = parse_children_from(src@, t.end as int, t.name@, forbid_media, Seq::empty(), Seq::empty());
            assert(inner.1 == np);
            assert(parse_children_from(src@, pos as int, closing@, forbid_media, text0, out0)
                == parse_children_from(
                src@,
                np as int,
                closing@,
                forbid_media,
                Seq::empty(),
                out1.push(spec_element_for(t.name@, tag@, inner.0, forbid_media)),
            ));
        }
        out.push(node);
        np
    }
}

/// Parses the contents of an element starting at `pos` of `src` until its
/// closing tag `closing` or the end, returning the sanitized child nodes
/// and the index just past the closing tag (or the end of input).
pub fn parse_children(src: &[char], start: usize, closing: &[char], forbid_media: bool) -> (r: (
    Vec<HtmlNode>,
    usize,
))
    requires
        start <= src@.len(),
    ensures
        nodes_view(r.0@) == spec_parse_children(src@, start as int, closing@, forbid_media).0,
        r.1 as int == spec_parse_children(src@, start as int, closing@, forbid_media).1,
        start <= r.1 <= src@.len(),
    decreases src@.len() - start, 1int,
{
    let sl = src.len();
    let ghost pos0 = start as int;
    let mut out: Vec<HtmlNode> = Vec::new();
    let mut text: Vec<char> = Vec::new();
    let mut pos = start;
    let c_open = ['<', '!', '-', '-'];
    let c_close = ['-', '-', '>'];
    let cl_open = ['<', '/'];
    let gt_a = ['>'];
    proof {
        assert(c_open@ =~= comment_open());
        assert(c_close@ =~= comment_close());
        assert(cl_open@ =~= close_open());
        assert(gt_a@ =~= seq!['>']);
        assert(nodes_view(out@) =~= Seq::<HtmlNodeV>::empty());
        lemma_parse_children_pos(src@, pos0, closing@, forbid_media, Seq::empty(), Seq::empty());
    }
    loop
        invariant_except_break
            spec_parse_children(src@, pos0, closing@, forbid_media) == parse_children_from(
                src@,
                pos as int,
                closing@,
                forbid_media,
                text@,
                nodes_view(out@),
            ),
        invariant
            sl == src@.len(),
            pos0 <= pos <= src@.len(),
            pos0 == start,
            c_open@ == comment_open(),
            c_close@ == comment_close(),
            cl_open@ == close_open(),
            gt_a@ == seq!['>'],
        ensures
            spec_parse_children(src@, pos0, closing@, forbid_media) == (
                nodes_view(out@),
                pos as int,
            ),
        decreases src@.len() - pos,
    {
        if pos >= src.len() {
            flush_exec(&mut out, &mut text);
            break ;
        }
        let ghost rest = src@.skip(pos as int);
        let ghost tv = text@;
        let ghost ov = nodes_view(out@);
        if starts_with_at(src, pos, &c_open) {
            let found = find_from_exec(src, &c_close, pos);
            proof {
                lemma_find_from_shift(src@, c_close@, pos as int);
                lemma_find_from(src@, c_close@, pos as int);
            }
            match found {
                Some(e) => {
                    pos = e + 3;
                },
                None => {
                    pos = src.len();
                },
            }
            continue ;
        }
        if starts_with_at(src, pos, &cl_open) {
            let found = find_from_exec(src, &gt_a, pos);
            proof {
                lemma_find_from_shift(src@, gt_a@, pos as int);
                lemma_find_from(src@, gt_a@, pos as int);
            }
            match found {
                Some(gt) => {
                    proof {
                        assert(rest.subrange(0, 2) =~= src@.subrange(pos as int, pos + 2));
                        assert(src@.subrange(pos as int, pos + 2)[0] == src@[pos as int]);
                        assert(src@.subrange(pos as int, pos + 2)[1] == src@[pos + 1]);
                        assert(src@[pos as int] == '<');
                        assert(src@[pos + 1] == '/');
                        assert(src@.subrange(gt as int, gt + 1)[0] == src@[gt as int]);
                        assert(src@[gt as int] == '>');
                        assert(gt >= pos + 2);
                    }
                    let (ns, ne) = trim_range(src, pos + 2, gt);
                    let nm = slice_vec(src, ns, ne);
                    let l1 = lower_exec(&nm);
                    let l2 = lower_exec(closing);
                    proof {
                        assert(rest.subrange(2, gt - pos) =~= src@.subrange(pos + 2, gt as int));
                    }
                    pos = gt + 1;
                    if chars_eq(&l1, &l2) {
                        flush_exec(&mut out, &mut text);
                        break ;
                    }
                    continue ;
                },
                None => {
                    flush_exec(&mut out, &mut text);
                    pos = src.len();
                    break ;
                },
            }
        }
        if src[pos] == '<' {
            let parsed = parse_open_tag_at(src, pos);
            proof {
                lemma_open_tag_bounds(src@, pos as int);
            }
            match parsed {
                Some(t) => {
                    if is_allowed_tag_chars(&t.name) {
                        proof {
                            assert(allowed_open_tag_at(src@, pos as int));
                            assert(rest[0] == src@[pos as int]);
                        }
                        pos = open_tag_step(src, pos, closing, forbid_media, t, &mut out, &mut text);
                        continue ;
                    }
                },
                None => {},
            }
            proof {
                assert(!allowed_open_tag_at(src@, pos as int));
            }
            text.push('<');
            pos = pos + 1;
            continue ;
        }
        text.push(src[pos]);
        pos = pos + 1;
    }
    (out, pos)
}

// ---------------------------------------------------------------------------
// top-level segments
// ---------------------------------------------------------------------------

/// Either a stretch of plain (markdown) text, or one sanitized element.
#[derive(Debug)]
pub enum TextOrHtml {
    Text(String),
    Html(HtmlNode),
}

/// The mathematical form of a segment.
pub enum SegmentV {
    Text(Seq<char>),
    Html(HtmlNodeV),
}

/// The view of a segment.
pub open spec fn segment_view(s: TextOrHtml) -> SegmentV {
    match s {
        TextOrHtml::Text(t) => SegmentV::Text(t@),
        TextOrHtml::Html(n) => SegmentV::Html(node_view(n)),
    }
}

/// The views of a sequence of segments.
pub open spec fn segments_view(v: Seq<TextOrHtml>) -> Seq<SegmentV> {
    Seq::new(v.len(), |i: int| segment_view(v[i]))
}

/// The tags pulled out as elements even outside paragraphs.
pub open spec fn top_level_tags() -> Seq<Seq<char>> {
    seq![
        seq!['d', 'i', 'v'],
        seq!['s', 'p', 'a', 'n'],
        seq!['f', 'o', 'n', 't'],
        seq!['a'],
        seq!['i', 'm', 'g'],
    ]
}

/// A located open tag: start index, lower-cased name, index past `>`, self-closing.
pub type TagAt = (int, Seq<char>, int, bool);

/// The first occurrence, at or after `from`, of `<` + `name` (compared
/// case-insensitively) that is followed by whitespace, `>` or `/` and that
/// starts a well-formed open tag.
pub open spec fn first_tag_occurrence(text: Seq<char>, name: Seq<char>, from: int) -> Option<TagAt>
    decreases text.len() + 1 - from,
{
    let needle = seq!['<'] + name;
    if from < 0 || from > text.len() {
        None
    } else {
        match find_from(lower(text), needle, from) {
            None => None,
            Some(start) => {
                let after = start + needle.len();
                let boundary_ok = 0 <= after < text.len() && (is_ws(text[after]) || text[after] == '>'
                    || text[after] == '/');
                if boundary_ok && spec_parse_open_tag(text, start) is Some {
                    let t = spec_parse_open_tag(text, start)->0;
                    Some((start, t.0, t.1, t.2))
                } else if from <= start && after <= text.len() {
                    first_tag_occurrence(text, name, after)
                } else {
                    None
                }
            },
        }
    }
}

/// `cand` if it starts strictly before `best` (or there is no `best`).
pub open spec fn earlier(best: Option<TagAt>, cand: Option<TagAt>) -> Option<TagAt> {
    match cand {
        Some(c) => match best {
            Some(b) => if c.0 < b.0 {
                Some(c)
            } else {
                best
            },
            None => Some(c),
        },
        None => best,
    }
}

/// The earliest top-level tag (`div`, `span`, `font`, `a`, `img`) at or after `from`.
pub open spec fn spec_find_next_top_level_tag(text: Seq<char>, from: int) -> Option<TagAt> {
    let tags = top_level_tags();
    earlier(
        earlier(
            earlier(
                earlier(first_tag_occurrence(text, tags[0], from), first_tag_occurrence(text, tags[1], from)),
                first_tag_occurrence(text, tags[2], from),
            ),
            first_tag_occurrence(text, tags[3], from),
        ),
        first_tag_occurrence(text, tags[4], from),
    )
}

proof fn lemma_first_tag_occurrence(text: Seq<char>, name: Seq<char>, from: int)
    ensures
        match first_tag_occurrence(text, name, from) {
            Some(t) => from <= t.0 && spec_parse_open_tag(text, t.0) == Some((t.1, t.2, t.3)),
            None => true,
        },
    decreases text.len() + 1 - from,
{
    let needle = seq!['<'] + name;
    if 0 <= from <= text.len() {
        lemma_find_from(lower(text), needle, from);
        match find_from(lower(text), needle, from) {
            None => {},
            Some(start) => {
                let after = start + needle.len();
                let boundary_ok = 0 <= after < text.len() && (is_ws(text[after]) || text[after] == '>'
                    || text[after] == '/');
                if !(boundary_ok && spec_parse_open_tag(text, start) is Some) {
                    if from <= start && after <= text.len() {
                        lemma_first_tag_occurrence(text, name, after);
                    }
                }
            },
        }
    }
}

/// The facts about the next top-level tag that parsing relies on.
pub proof fn lemma_next_top_level_tag(text: Seq<char>, from: int)
    ensures
        match spec_find_next_top_level_tag(text, from) {
            Some(t) => from <= t.0 && spec_parse_open_tag(text, t.0) == Some((t.1, t.2, t.3)),
            None => true,
        },
{
    let tags = top_level_tags();
    lemma_first_tag_occurrence(text, tags[0], from);
    lemma_first_tag_occurrence(text, tags[1], from);
    lemma_first_tag_occurrence(text, tags[2], from);
    lemma_first_tag_occurrence(text, tags[3], from);
    lemma_first_tag_occurrence(text, tags[4], from);
}

/// A located open tag (executable).
pub struct FoundTag {
    pub start: usize,
    pub name: Vec<char>,
    pub end: usize,
    pub self_close: bool,
}

/// The view of a located tag.
pub open spec fn found_view(o: Option<FoundTag>) -> Option<TagAt> {
    match o {
        Some(f) => Some((f.start as int, f.name@, f.end as int, f.self_close)),
        None => None,
    }
}

/// The first occurrence of a top-level tag `name` at or after `from` (executable).
fn first_tag_occurrence_exec(text: &[char], low: &[char], name: &[char], from: usize) -> (r: Option<
    FoundTag,
>)
    requires
        low@ == lower(text@),
        from <= text@.len(),
    ensures
        found_view(r) == first_tag_occurrence(text@, name@, from as int),
{
    let tl = text.len();
    let mut needle: Vec<char> = vec!['<'];
    push_all(&mut needle, name);
    let mut sf = from;
    loop
        invariant
            low@ == lower(text@),
            tl == text@.len(),
            sf <= text@.len(),
            needle@ == seq!['<'] + name@,
            first_tag_occurrence(text@, name@, from as int) == first_tag_occurrence(
                text@,
                name@,
                sf as int,
            ),
        decreases text@.len() - sf,
    {
        let found = find_from_exec(low, &needle, sf);
        proof {
            lemma_find_from(low@, needle@, sf as int);
        }
        match found {
            None => {
                return None;
            },
            Some(start) => {
                let after = start + needle.len();
                let boundary_ok = after < text.len() && (is_whitespace(text[after]) || text[after]
                    == '>' || text[after] == '/');
                if boundary_ok {
                    match parse_open_tag_at(text, start) {
                        Some(t) => {
                            return Some(
                                FoundTag { start, name: t.name, end: t.end, self_close: t.self_close },
                            );
                        },
                        None => {},
                    }
                }
                if after >= text.len() {
                    proof {
                        assert(find_from(lower(text@), needle@, after as int) == None::<int>);
                        assert(first_tag_occurrence(text@, name@, after as int) == None::<TagAt>);
                    }
                    return None;
                }
                sf = after;
            },
        }
    }
}

/// The earlier of two located tags (executable `earlier`).
fn earlier_exec(best: Option<FoundTag>, cand: Option<FoundTag>) -> (r: Option<FoundTag>)
    ensures
        found_view(r) == earlier(found_view(best), found_view(cand)),
{
    match cand {
        Some(c) => match best {
            Some(b) => if c.start < b.start {
                Some(c)
            } else {
                Some(b)
            },
            None => Some(c),
        },
        None => best,
    }
}

/// The earliest top-level tag at or after `from` (executable).
pub fn find_next_top_level_tag(text: &[char], from: usize) -> (r: Option<FoundTag>)
    requires
        from <= text@.len(),
    ensures
        found_view(r) == spec_find_next_top_level_tag(text@, from as int),
{
    let low = lower_exec(text);
    let t0 = ['d', 'i', 'v'];
    let t1 = ['s', 'p', 'a', 'n'];
    let t2 = ['f', 'o', 'n', 't'];
    let t3 = ['a'];
    let t4 = ['i', 'm', 'g'];
    proof {
        assert(t0@ =~= top_level_tags()[0]);
        assert(t1@ =~= top_level_tags()[1]);
        assert(t2@ =~= top_level_tags()[2]);
        assert(t3@ =~= top_level_tags()[3]);
        assert(t4@ =~= top_level_tags()[4]);
    }
    let b = first_tag_occurrence_exec(text, &low, &t0, from);
    let b = earlier_exec(b, first_tag_occurrence_exec(text, &low, &t1, from));
    let b = earlier_exec(b, first_tag_occurrence_exec(text, &low, &t2, from));
    let b = earlier_exec(b, first_tag_occurrence_exec(text, &low, &t3, from));
    earlier_exec(b, first_tag_occurrence_exec(text, &low, &t4, from))
}

/// Splitting `text` from `pos` into plain stretches and top-level elements,
/// after the segments `acc` already produced: each top-level allowed tag
/// becomes a sanitized element (void tags alone, others with their contents
/// up to the matching close tag), the text between them is left as it is.
pub open spec fn segments_from(text: Seq<char>, pos: int, forbid_media: bool, acc: Seq<SegmentV>) -> Seq<
    SegmentV,
>
    decreases text.len() - pos,
{
    if pos < 0 || pos > text.len() {
        acc
    } else {
        match spec_find_next_top_level_tag(text, pos) {
            None => if pos < text.len() {
                acc.push(SegmentV::Text(text.skip(pos)))
            } else {
                acc
            },
            Some(t) => {
                proof {
                    lemma_next_top_level_tag(text, pos);
                    lemma_open_tag_bounds(text, t.0);
                }
                let start = t.0;
                let name = t.1;
                let end = t.2;
                let acc1 = if start > pos {
                    acc.push(SegmentV::Text(text.subrange(pos, start)))
                } else {
                    acc
                };
                let tag = text.subrange(start, end);
                if !(pos <= start && start + 2 < end <= text.len()) {
                    acc1
                } else if t.3 || name == seq!['i', 'm', 'g'] {
                    segments_from(
                        text,
                        end,
                        forbid_media,
                        acc1.push(SegmentV::Html(spec_element_for(name, tag, Seq::empty(), forbid_media))),
                    )
                } else {
                    let inner = spec_parse_children(text, end, name, forbid_media);
                    let next = if end < inner.1 <= text.len() {
                        inner.1
                    } else {
                        end
                    };
                    segments_from(
                        text,
                        next,
                        forbid_media,
                        acc1.push(SegmentV::Html(spec_element_for(name, tag, inner.0, forbid_media))),
                    )
                }
            },
        }
    }
}

/// The segments of `text`: plain stretches and the top-level sanitized elements.
pub open spec fn spec_extract_html_segments(text: Seq<char>, forbid_media: bool) -> Seq<SegmentV> {
    segments_from(text, 0, forbid_media, Seq::empty())
}

proof fn lemma_segments_view_push(v: Seq<TextOrHtml>, s: TextOrHtml)
    ensures
        segments_view(v.push(s)) == segments_view(v).push(segment_view(s)),
{
    assert(segments_view(v.push(s)) =~= segments_view(v).push(segment_view(s)));
}

/// Splits `text` into plain (markdown) stretches and the top-level allowed
/// HTML elements (`div`, `span`, `font`, `a`, `img`), each sanitized.
pub fn extract_html_segments(text: &str, forbid_media: bool) -> (r: Vec<TextOrHtml>)
    ensures
        segments_view(r@) == spec_extract_html_segments(text@, forbid_media),
{
    let t = to_chars(text);
    extract_html_segments_chars(&t, forbid_media)
}

/// Splits a character slice into plain stretches and top-level elements.
pub fn extract_html_segments_chars(t: &[char], forbid_media: bool) -> (r: Vec<TextOrHtml>)
    ensures
        segments_view(r@) == spec_extract_html_segments(t@, forbid_media),
{
    let tl = t.len();
    let mut out: Vec<TextOrHtml> = Vec::new();
    let mut pos: usize = 0;
    proof {
        assert(segments_view(out@) =~= Seq::<SegmentV>::empty());
    }
    loop
        invariant_except_break
            segments_from(t@, pos as int, forbid_media, segments_view(out@))
                == spec_extract_html_segments(t@, forbid_media),
        invariant
            tl == t@.len(),
            pos <= t@.len(),
        ensures
            segments_view(out@) == spec_extract_html_segments(t@, forbid_media),
        decreases t@.len() - pos,
    {
        let ghost acc = segments_view(out@);
        let next = find_next_top_level_tag(t, pos);
        proof {
            lemma_next_top_level_tag(t@, pos as int);
        }
        match next {
            None => {
                if pos < t.len() {
                    let seg = TextOrHtml::Text(from_chars(&slice_vec(t, pos, t.len())));
                    proof {
                        lemma_segments_view_push(out@, seg);
                        assert(t@.subrange(pos as int, t@.len() as int) =~= t@.skip(pos as int));
                    }
                    out.push(seg);
                }
                break ;
            },
            Some(f) => {
                proof {
                    lemma_open_tag_bounds(t@, f.start as int);
                }
                if f.start > pos {
                    let seg = TextOrHtml::Text(from_chars(&slice_vec(t, pos, f.start)));
                    proof {
                        lemma_segments_view_push(out@, seg);
                    }
                    out.push(seg);
                }
                let ghost acc1 = segments_view(out@);
                let tag = slice_vec(t, f.start, f.end);
                let img = ['i', 'm', 'g'];
                proof {
                    assert(img@ =~= seq!['i', 'm', 'g']);
                }
                if f.self_close || chars_eq(&f.name, &img) {
                    let empty: Vec<HtmlNode> = Vec::new();
                    proof {
                        assert(nodes_view(empty@) =~= Seq::<HtmlNodeV>::empty());
                    }
                    let node = element_for(&f.name, &tag, empty, forbid_media);
                    let seg = TextOrHtml::Html(node);
                    proof {
                        lemma_segments_view_push(out@, seg);
                    }
                    out.push(seg);
                    pos = f.end;
                } else {
                    let (children, np) = parse_children(t, f.end, &f.name, forbid_media);
                    let node = element_for(&f.name, &tag, children, forbid_media);
                    let seg = TextOrHtml::Html(node);
                    proof {
                        lemma_segments_view_push(out@, seg);
                    }
                    out.push(seg);
                    pos = np;
                }
            },
        }
    }
    out
}

// ---------------------------------------------------------------------------
// plot-momentum blocks
// ---------------------------------------------------------------------------

/// `<details`
pub open spec fn details_open() -> Seq<char> {
    seq!['<', 'd', 'e', 't', 'a', 'i', 'l', 's']
}

/// `</details>`
pub open spec fn details_close() -> Seq<char> {
    seq!['<', '/', 'd', 'e', 't', 'a', 'i', 'l', 's', '>']
}

/// `<summary`
pub open spec fn summary_open() -> Seq<char> {
    seq!['<', 's', 'u', 'm', 'm', 'a', 'r', 'y']
}

/// `</summary>`
pub open spec fn summary_close() -> Seq<char> {
    seq!['<', '/', 's', 'u', 'm', 'm', 'a', 'r', 'y', '>']
}

/// `plot momentum`
pub open spec fn plot_momentum() -> Seq<char> {
    seq!['p', 'l', 'o', 't', ' ', 'm', 'o', 'm', 'e', 'n', 't', 'u', 'm']
}

/// The (lower-cased) `<details>` block `block` has a `<summary>` whose
/// text mentions "plot momentum".
pub open spec fn spec_is_plot_momentum_summary(block: Seq<char>) -> bool {
    match find(block, summary_open()) {
        None => false,
        Some(ss) => if 0 <= ss <= block.len() {
            match find(block.skip(ss), seq!['>']) {
                None => false,
                Some(gt) => {
                    let cs = ss + gt + 1;
                    if 0 <= gt && cs <= block.len() {
                        match find(block.skip(cs), summary_close()) {
                            None => false,
                            Some(cr) => if 0 <= cr && cs + cr <= block.len() {
                                contains(block.subrange(cs, cs + cr), plot_momentum())
                            } else {
                                false
                            },
                        }
                    } else {
                        false
                    }
                },
            }
        } else {
            false
        },
    }
}

/// Whether a lower-cased `<details>` block is a plot-momentum summary (executable).
pub fn is_plot_momentum_summary_chars(block: &[char]) -> (r: bool)
    ensures
        r == spec_is_plot_momentum_summary(block@),
{
    let so = ['<', 's', 'u', 'm', 'm', 'a', 'r', 'y'];
    let sc = ['<', '/', 's', 'u', 'm', 'm', 'a', 'r', 'y', '>'];
    let gt_a = ['>'];
    let pm = ['p', 'l', 'o', 't', ' ', 'm', 'o', 'm', 'e', 'n', 't', 'u', 'm'];
    proof {
        assert(so@ =~= summary_open());
        assert(sc@ =~= summary_close());
        assert(gt_a@ =~= seq!['>']);
        assert(pm@ =~= plot_momentum());
    }
    let bl = block.len();
    let ss = match find_from_exec(block, &so, 0) {
        Some(i) => i,
        None => {
            return false;
        },
    };
    proof {
        lemma_find_from(block@, so@, 0);
    }
    let gt = match find_from_exec(block, &gt_a, ss) {
        Some(i) => i,
        None => {
            proof {
                lemma_find_from_shift(block@, gt_a@, ss as int);
            }
            return false;
        },
    };
    proof {
        lemma_find_from_shift(block@, gt_a@, ss as int);
        lemma_find_from(block@, gt_a@, ss as int);
    }
    let cs = gt + 1;
    let cr = match find_from_exec(block, &sc, cs) {
        Some(i) => i,
        None => {
            proof {
                lemma_find_from_shift(block@, sc@, cs as int);
            }
            return false;
        },
    };
    proof {
        lemma_find_from_shift(block@, sc@, cs as int);
        lemma_find_from(block@, sc@, cs as int);
    }
    let inner = slice_vec(block, cs, cr);
    crate::text::contains_exec(&inner, &pm)
}

/// Where the `<details>` block being scanned ends: from `scan` at nesting
/// `depth`, the index just past the `</details>` that closes it, if any.
pub open spec fn details_end(low: Seq<char>, scan: int, depth: int) -> Option<int>
    decreases low.len() + 1 - scan,
{
    if scan < 0 || scan > low.len() {
        None
    } else {
        let next_open = find_from(low, details_open(), scan);
        let next_close = find_from(low, details_close(), scan);
        match next_close {
            None => None,
            Some(c) => {
                if next_open is Some && next_open->0 < c {
                    let o = next_open->0;
                    if scan <= o && o + 8 <= low.len() {
                        details_end(low, o + 8, depth + 1)
                    } else {
                        None
                    }
                } else if depth - 1 == 0 {
                    Some(c + 10)
                } else if scan <= c && c + 10 <= low.len() {
                    details_end(low, c + 10, depth - 1)
                } else {
                    None
                }
            },
        }
    }
}

/// `text` from `pos` with every `<details>` block whose summary mentions
/// "plot momentum" removed (matching is case-insensitive, nesting counted),
/// appended to `out`; an unterminated block and everything after it is kept.
pub open spec fn strip_from(text: Seq<char>, low: Seq<char>, pos: int, out: Seq<char>) -> Seq<char>
    decreases text.len() + 1 - pos,
{
    if pos < 0 || pos > text.len() {
        out
    } else {
        match find_from(low, details_open(), pos) {
            None => out + text.skip(pos),
            Some(start) => if pos <= start && start + 8 <= text.len() {
                let out1 = out + text.subrange(pos, start);
                match details_end(low, start + 8, 1) {
                    Some(end) => if start + 8 <= end <= text.len() {
                        let block = text.subrange(start, end);
                        let out2 = if !spec_is_plot_momentum_summary(low.subrange(start, end)) {
                            out1 + block
                        } else {
                            out1
                        };
                        strip_from(text, low, end, out2)
                    } else {
                        out1
                    },
                    None => out1 + text.skip(start),
                }
            } else {
                out
            },
        }
    }
}

/// What `strip_plot_momentum` returns for `text`.
pub open spec fn spec_strip_plot_momentum(text: Seq<char>) -> Seq<char> {
    strip_from(text, lower(text), 0, Seq::empty())
}

/// `details_end` as an index past a `</details>`, within bounds.
proof fn lemma_details_end(low: Seq<char>, scan: int, depth: int)
    ensures
        match details_end(low, scan, depth) {
            Some(e) => scan + 10 <= e <= low.len(),
            None => true,
        },
    decreases low.len() + 1 - scan,
{
    if 0 <= scan <= low.len() {
        let next_open = find_from(low, details_open(), scan);
        let next_close = find_from(low, details_close(), scan);
        lemma_find_from(low, details_close(), scan);
        lemma_find_from(low, details_open(), scan);
        match next_close {
            None => {},
            Some(c) => {
                if next_open is Some && next_open->0 < c {
                    let o = next_open->0;
                    if scan <= o && o + 8 <= low.len() {
                        lemma_details_end(low, o + 8, depth + 1);
                    }
                } else if depth - 1 == 0 {
                } else if scan <= c && c + 10 <= low.len() {
                    lemma_details_end(low, c + 10, depth - 1);
                }
            },
        }
    }
}

/// Where the `<details>` block being scanned ends (executable).
fn details_end_exec(low: &[char], scan_start: usize, depth_start: usize) -> (r: Option<usize>)
    requires
        scan_start <= low@.len(),
        1 <= depth_start <= scan_start + 1,
    ensures
        match r {
            Some(e) => details_end(low@, scan_start as int, depth_start as int) == Some(e as int),
            None => details_end(low@, scan_start as int, depth_start as int) is None,
        },
{
    let ll = low.len();
    let dopen = ['<', 'd', 'e', 't', 'a', 'i', 'l', 's'];
    let dclose = ['<', '/', 'd', 'e', 't', 'a', 'i', 'l', 's', '>'];
    proof {
        assert(dopen@ =~= details_open());
        assert(dclose@ =~= details_close());
    }
    let mut scan = scan_start;
    let mut depth = depth_start;
    let ghost scan0 = scan_start as int;
    let ghost depth0 = depth_start as int;
    loop
        invariant
            ll == low@.len(),
            scan <= low@.len(),
            1 <= depth <= scan + 1,
            dopen@ == details_open(),
            dclose@ == details_close(),
            scan0 == scan_start,
            depth0 == depth_start,
            details_end(low@, scan0, depth0) == details_end(low@, scan as int, depth as int),
        decreases low@.len() - scan,
    {
        let next_open = find_from_exec(low, &dopen, scan);
        let next_close = find_from_exec(low, &dclose, scan);
        proof {
            lemma_find_from(low@, dclose@, scan as int);
            lemma_find_from(low@, dopen@, scan as int);
        }
        match next_close {
            None => {
                return None;
            },
            Some(c) => {
                let open_first = match next_open {
                    Some(o) => o < c,
                    None => false,
                };
                if open_first {
                    let o = match next_open {
                        Some(o) => o,
                        None => 0,
                    };
                    depth = depth + 1;
                    scan = o + 8;
                } else if depth == 1 {
                    return Some(c + 10);
                } else {
                    depth = depth - 1;
                    scan = c + 10;
                }
            },
        }
    }
}

/// Removes every `<details>` block whose `<summary>` mentions "plot momentum"
/// (the preset's own planning notes, not meant to be read), compared
/// case-insensitively and counting nested blocks; every other `<details>`
/// block and all surrounding text are kept as they are.
pub fn strip_plot_momentum(text: &str) -> (r: String)
    ensures
        r@ == spec_strip_plot_momentum(text@),
{
    let t = to_chars(text);
    let v = strip_plot_momentum_chars(&t);
    from_chars(&v)
}

/// Removes the plot-momentum `<details>` blocks (character version).
pub fn strip_plot_momentum_chars(t: &[char]) -> (r: Vec<char>)
    ensures
        r@ == spec_strip_plot_momentum(t@),
{
    let tl = t.len();
    let low = lower_exec(t);
    let dopen = ['<', 'd', 'e', 't', 'a', 'i', 'l', 's'];
    proof {
        assert(dopen@ =~= details_open());
    }
    let mut out: Vec<char> = Vec::new();
    let mut pos: usize = 0;
    loop
        invariant
            tl == t@.len(),
            low@ == lower(t@),
            low@.len() == t@.len(),
            pos <= t@.len(),
            dopen@ == details_open(),
            strip_from(t@, low@, pos as int, out@) == spec_strip_plot_momentum(t@),
        decreases t@.len() - pos,
    {
        let found = find_from_exec(&low, &dopen, pos);
        proof {
            lemma_find_from(low@, dopen@, pos as int);
        }
        match found {
            None => {
                push_range_all(&mut out, t, pos);
                return out;
            },
            Some(start) => {
                crate::text::push_range(&mut out, t, pos, start);
                let de = details_end_exec(&low, start + 8, 1);
                proof {
                    lemma_details_end(low@, start + 8, 1);
                }
                match de {
                    Some(end) => {
                        let block_low = slice_vec(&low, start, end);
                        if !is_plot_momentum_summary_chars(&block_low) {
                            crate::text::push_range(&mut out, t, start, end);
                        }
                        pos = end;
                    },
                    None => {
                        push_range_all(&mut out, t, start);
                        return out;
                    },
                }
            },
        }
    }
}

/// Appends `src[from..]` to `dst`.
fn push_range_all(dst: &mut Vec<char>, src: &[char], from: usize)
    requires
        from <= src@.len(),
    ensures
        final(dst)@ == old(dst)@ + src@.skip(from as int),
{
    crate::text::push_range(dst, src, from, src.len());
    proof {
        assert(src@.subrange(from as int, src@.len() as int) =~= src@.skip(from as int));
    }
}

// ---------------------------------------------------------------------------
// what sanitizing guarantees
// ---------------------------------------------------------------------------

/// A sanitized node whose links all go to `http(s)` addresses and which,
/// when media is forbidden, holds no image.
pub open spec fn html_node_ok(n: HtmlNodeV, forbid_media: bool) -> bool
    decreases n,
{
    match n {
        HtmlNodeV::Element { tag: _, style: _, children } => html_nodes_ok(children, forbid_media),
        HtmlNodeV::Link { href, style: _, children } => crate::sanitize::safe_href(href)
            && html_nodes_ok(children, forbid_media),
        HtmlNodeV::Image { .. } => !forbid_media,
        _ => true,
    }
}

/// Every node of `v` is `html_node_ok`.
pub open spec fn html_nodes_ok(v: Seq<HtmlNodeV>, forbid_media: bool) -> bool
    decreases v,
{
    if v.len() == 0 {
        true
    } else {
        proof {
            assert(decreases_to!(v => v.subrange(0, v.len() - 1)));
        }
        html_nodes_ok(v.subrange(0, v.len() - 1), forbid_media) && html_node_ok(
            v[v.len() - 1],
            forbid_media,
        )
    }
}

proof fn lemma_html_nodes_ok_push(v: Seq<HtmlNodeV>, n: HtmlNodeV, fm: bool)
    requires
        html_nodes_ok(v, fm),
        html_node_ok(n, fm),
    ensures
        html_nodes_ok(v.push(n), fm),
{
    assert(v.push(n).subrange(0, v.len() as int) =~= v);
    assert(v.push(n)[v.len() as int] == n);
}

proof fn lemma_flush_ok(out: Seq<HtmlNodeV>, text: Seq<char>, fm: bool)
    requires
        html_nodes_ok(out, fm),
    ensures
        html_nodes_ok(flush(out, text), fm),
{
    if text.len() > 0 {
        lemma_html_nodes_ok_push(out, HtmlNodeV::Text(spec_decode_entities(text)), fm);
    }
}

/// An element made from an allowed tag links only to a sanitized
/// `http(s)` address and is no image when media is forbidden.
pub proof fn lemma_element_for_ok(name: Seq<char>, tag: Seq<char>, children: Seq<HtmlNodeV>, fm: bool)
    requires
        html_nodes_ok(children, fm),
    ensures
        html_node_ok(spec_element_for(name, tag, children, fm), fm),
{
}

proof fn lemma_parse_children_ok(
    src: Seq<char>,
    pos: int,
    closing: Seq<char>,
    fm: bool,
    text: Seq<char>,
    out: Seq<HtmlNodeV>,
)
    requires
        html_nodes_ok(out, fm),
    ensures
        html_nodes_ok(parse_children_from(src, pos, closing, fm, text, out).0, fm),
    decreases src.len() - pos,
{
    if pos < 0 || pos >= src.len() {
        lemma_flush_ok(out, text, fm);
    } else {
        let rest = src.skip(pos);
        if starts_with(rest, comment_open()) {
            match find(rest, comment_close()) {
                Some(e) => if 0 <= e && pos + e + 3 <= src.len() {
                    lemma_parse_children_ok(src, pos + e + 3, closing, fm, text, out);
                } else {
                    lemma_flush_ok(out, text, fm);
                },
                None => lemma_parse_children_ok(src, src.len() as int, closing, fm, text, out),
            }
        } else if starts_with(rest, close_open()) {
            match find(rest, seq!['>']) {
                Some(gt) => if 2 <= gt < rest.len() {
                    if lower(trim(rest.subrange(2, gt))) == lower(closing) {
                        lemma_flush_ok(out, text, fm);
                    } else {
                        lemma_parse_children_ok(src, pos + gt + 1, closing, fm, text, out);
                    }
                } else {
                    lemma_flush_ok(out, text, fm);
                },
                None => lemma_flush_ok(out, text, fm),
            }
        } else if rest[0] == '<' && allowed_open_tag_at(src, pos) {
            let t = spec_parse_open_tag(src, pos)->0;
            let name = t.0;
            let end = t.1;
            let out1 = flush(out, text);
            let tag = src.subrange(pos, end);
            lemma_open_tag_bounds(src, pos);
            lemma_flush_ok(out, text, fm);
            if end <= pos {
            } else if is_void(name, t.2) {
                lemma_element_for_ok(name, tag, Seq::empty(), fm);
                lemma_html_nodes_ok_push(out1, spec_element_for(name, tag, Seq::empty(), fm), fm);
                lemma_parse_children_ok(
                    src,
                    end,
                    closing,
                    fm,
                    Seq::empty(),
                    out1.push(spec_element_for(name, tag, Seq::empty(), fm)),
                );
            } else {
                lemma_parse_children_ok(src, end, name, fm, Seq::empty(), Seq::empty());
                let inner = parse_children_from(src, end, name, fm, Seq::empty(), Seq::empty());
                let next = if end < inner.1 <= src.len() {
                    inner.1
                } else {
                    end
                };
                lemma_element_for_ok(name, tag, inner.0, fm);
                lemma_html_nodes_ok_push(out1, spec_element_for(name, tag, inner.0, fm), fm);
                lemma_parse_children_ok(
                    src,
                    next,
                    closing,
                    fm,
                    Seq::empty(),
                    out1.push(spec_element_for(name, tag, inner.0, fm)),
                );
            }
        } else {
            lemma_parse_children_ok(src, pos + 1, closing, fm, text.push(rest[0]), out);
        }
    }
}

/// Every element of `segs` is `html_node_ok`.
pub open spec fn segments_ok(segs: Seq<SegmentV>, forbid_media: bool) -> bool {
    forall|i: int|
        0 <= i < segs.len() ==> match #[trigger] segs[i] {
            SegmentV::Html(n) => html_node_ok(n, forbid_media),
            SegmentV::Text(_) => true,
        }
}

proof fn lemma_segments_push_ok(acc: Seq<SegmentV>, s: SegmentV, fm: bool)
    requires
        segments_ok(acc, fm),
        match s {
            SegmentV::Html(n) => html_node_ok(n, fm),
            SegmentV::Text(_) => true,
        },
    ensures
        segments_ok(acc.push(s), fm),
{
    assert forall|i: int| 0 <= i < acc.push(s).len() implies match #[trigger] acc.push(s)[i] {
        SegmentV::Html(n) => html_node_ok(n, fm),
        SegmentV::Text(_) => true,
    } by {
        if i < acc.len() {
            assert(acc.push(s)[i] == acc[i]);
        }
    }
}

proof fn lemma_segments_from_ok(text: Seq<char>, pos: int, fm: bool, acc: Seq<SegmentV>)
    requires
        segments_ok(acc, fm),
    ensures
        segments_ok(segments_from(text, pos, fm, acc), fm),
    decreases text.len() - pos,
{
    if 0 <= pos <= text.len() {
        match spec_find_next_top_level_tag(text, pos) {
            None => {
                if pos < text.len() {
                    lemma_segments_push_ok(acc, SegmentV::Text(text.skip(pos)), fm);
                }
            },
            Some(t) => {
                lemma_next_top_level_tag(text, pos);
                lemma_open_tag_bounds(text, t.0);
                let start = t.0;
                let name = t.1;
                let end = t.2;
                let acc1 = if start > pos {
                    acc.push(SegmentV::Text(text.subrange(pos, start)))
                } else {
                    acc
                };
                if start > pos {
                    lemma_segments_push_ok(acc, SegmentV::Text(text.subrange(pos, start)), fm);
                }
                let tag = text.subrange(start, end);
                if !(pos <= start && start + 2 < end <= text.len()) {
                } else if t.3 || name == seq!['i', 'm', 'g'] {
                    let e = spec_element_for(name, tag, Seq::empty(), fm);
                    lemma_element_for_ok(name, tag, Seq::empty(), fm);
                    lemma_segments_push_ok(acc1, SegmentV::Html(e), fm);
                    lemma_segments_from_ok(text, end, fm, acc1.push(SegmentV::Html(e)));
                } else {
                    let inner = spec_parse_children(text, end, name, fm);
                    lemma_parse_children_ok(text, end, name, fm, Seq::empty(), Seq::empty());
                    let next = if end < inner.1 <= text.len() {
                        inner.1
                    } else {
                        end
                    };
                    let e = spec_element_for(name, tag, inner.0, fm);
                    lemma_element_for_ok(name, tag, inner.0, fm);
                    lemma_segments_push_ok(acc1, SegmentV::Html(e), fm);
                    lemma_segments_from_ok(text, next, fm, acc1.push(SegmentV::Html(e)));
                }
            },
        }
    }
}

/// Whatever the raw text holds, every element pulled out of it links only
/// to an `http://` or `https://` address (a `javascript:`, `data:` or
/// relative link becomes a plain span) and, with media forbidden, no image
/// is shown.
pub proof fn law_extracted_html_is_safe(text: Seq<char>, forbid_media: bool)
    ensures
        segments_ok(spec_extract_html_segments(text, forbid_media), forbid_media),
{
    lemma_segments_from_ok(text, 0, forbid_media, Seq::empty());
}

} // verus!
