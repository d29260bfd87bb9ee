use saba_core::construct_tree;
use saba_core::Attribute;
use saba_core::HtmlParser;
use saba_core::HtmlToken;
use saba_core::HtmlTokenizer;
use saba_core::NodeKind;
use saba_core::Window;

fn parse(tokens: Vec<HtmlToken>) -> Window {
    construct_tree(HtmlParser::new(HtmlTokenizer::new(tokens)))
}

fn start(tag: &str) -> HtmlToken {
    HtmlToken::StartTag { tag: tag.to_string(), self_closing: false, attributes: Vec::new() }
}

fn end(tag: &str) -> HtmlToken {
    HtmlToken::EndTag { tag: tag.to_string() }
}

fn tag_of(w: &Window, idx: usize) -> &str {
    match &w.nodes[idx].kind {
        NodeKind::Element { tag, .. } => tag.as_str(),
        NodeKind::Text { .. } => panic!("expected an element"),
    }
}

fn text_of(w: &Window, idx: usize) -> String {
    match &w.nodes[idx].kind {
        NodeKind::Text { content } => content.iter().collect(),
        NodeKind::Element { .. } => panic!("expected a text run"),
    }
}

fn root_of(w: &Window) -> usize {
    let r = w.document_element.expect("document element must exist");
    assert!(w.nodes[r].parent.is_none());
    r
}

#[test]
fn explicit_html_fast_path() {
    let w = parse(vec![start("html"), HtmlToken::Eof]);
    let r = root_of(&w);
    assert_eq!(w.nodes.len(), 1);
    assert_eq!(tag_of(&w, r), "html");
    assert!(w.nodes[r].children.is_empty());
}

#[test]
fn leading_whitespace_is_discarded() {
    let a = parse(vec![start("html"), HtmlToken::Eof]);
    let b = parse(vec![
        HtmlToken::Char(' '),
        HtmlToken::Char('\n'),
        start("html"),
        HtmlToken::Eof,
    ]);
    let ra = root_of(&a);
    let rb = root_of(&b);
    assert_eq!(a.nodes.len(), b.nodes.len());
    assert_eq!(tag_of(&a, ra), tag_of(&b, rb));
    assert_eq!(a.nodes[ra].children, b.nodes[rb].children);
}

#[test]
fn root_is_synthesized_for_unexpected_tag() {
    let w = parse(vec![start("div"), HtmlToken::Eof]);
    let r = root_of(&w);
    assert_eq!(tag_of(&w, r), "html");
    // Exactly one parentless node: the document element.
    for i in 0..w.nodes.len() {
        assert_eq!(w.nodes[i].parent.is_none(), i == r);
    }
    // The div ends up inside the synthesized body.
    assert_eq!(w.nodes[r].children.len(), 2);
    let head = w.nodes[r].children[0];
    let body = w.nodes[r].children[1];
    assert_eq!(tag_of(&w, head), "head");
    assert_eq!(tag_of(&w, body), "body");
    assert_eq!(w.nodes[body].children.len(), 1);
    assert_eq!(tag_of(&w, w.nodes[body].children[0]), "div");
}

#[test]
fn reprocessed_body_tag_is_seen_by_new_mode() {
    // A body start tag seen in BeforeHtml switches modes without being
    // consumed; the tag itself must still open the body element.
    let w = parse(vec![start("body"), HtmlToken::Eof]);
    let r = root_of(&w);
    assert_eq!(tag_of(&w, r), "html");
    assert_eq!(w.nodes[r].children.len(), 2);
    assert_eq!(tag_of(&w, w.nodes[r].children[0]), "head");
    assert_eq!(tag_of(&w, w.nodes[r].children[1]), "body");
}

#[test]
fn whitespace_only_stream_synthesizes_the_root() {
    // Whitespace alone never leaves the tree rootless: end of input
    // synthesizes the html element, and no text node is inserted.
    let w = parse(vec![HtmlToken::Char(' '), HtmlToken::Char('\n'), HtmlToken::Eof]);
    let r = root_of(&w);
    assert_eq!(w.nodes.len(), 1);
    assert_eq!(tag_of(&w, r), "html");
    assert!(w.nodes[r].children.is_empty());
}

#[test]
fn eof_only_stream_synthesizes_the_root() {
    let w = parse(vec![HtmlToken::Eof]);
    let r = root_of(&w);
    assert_eq!(w.nodes.len(), 1);
    assert_eq!(tag_of(&w, r), "html");
    assert!(w.nodes[r].children.is_empty());
}

#[test]
fn empty_stream_builds_nothing() {
    // A stream that runs dry without ever yielding Eof is the one way to
    // end up rootless: no token, not even the terminator, ever arrived.
    let w = parse(Vec::new());
    assert!(w.document_element.is_none());
    assert!(w.nodes.is_empty());
}

#[test]
fn leading_text_character_becomes_body_text() {
    // Only whitespace is skipped before the root: a genuine character
    // token builds the full skeleton and lands in the body.
    let w = parse(vec![HtmlToken::Char('x'), HtmlToken::Eof]);
    let r = root_of(&w);
    assert_eq!(tag_of(&w, r), "html");
    assert_eq!(w.nodes[r].children.len(), 2);
    let head = w.nodes[r].children[0];
    let body = w.nodes[r].children[1];
    assert_eq!(tag_of(&w, head), "head");
    assert_eq!(tag_of(&w, body), "body");
    assert_eq!(w.nodes[body].children.len(), 1);
    assert_eq!(text_of(&w, w.nodes[body].children[0]), "x");
}

#[test]
fn skeleton_with_explicit_tags() {
    let w = parse(vec![
        start("html"),
        start("head"),
        end("head"),
        start("body"),
        start("p"),
        HtmlToken::Char('h'),
        HtmlToken::Char('i'),
        end("p"),
        end("body"),
        end("html"),
        HtmlToken::Eof,
    ]);
    let r = root_of(&w);
    assert_eq!(tag_of(&w, r), "html");
    assert_eq!(w.nodes[r].children.len(), 2);
    let head = w.nodes[r].children[0];
    let body = w.nodes[r].children[1];
    assert_eq!(tag_of(&w, head), "head");
    assert!(w.nodes[head].children.is_empty());
    assert_eq!(tag_of(&w, body), "body");
    let p = w.nodes[body].children[0];
    assert_eq!(tag_of(&w, p), "p");
    assert_eq!(w.nodes[p].children.len(), 1);
    assert_eq!(text_of(&w, w.nodes[p].children[0]), "hi");
}

#[test]
fn consecutive_text_is_coalesced() {
    let w = parse(vec![
        start("html"),
        start("body"),
        HtmlToken::Char('a'),
        HtmlToken::Char('b'),
        HtmlToken::Char('c'),
        HtmlToken::Eof,
    ]);
    let r = root_of(&w);
    let body = w.nodes[r].children[1];
    assert_eq!(w.nodes[body].children.len(), 1);
    assert_eq!(text_of(&w, w.nodes[body].children[0]), "abc");
}

#[test]
fn text_runs_split_by_elements() {
    let w = parse(vec![
        start("html"),
        start("body"),
        HtmlToken::Char('a'),
        start("b"),
        end("b"),
        HtmlToken::Char('c'),
        HtmlToken::Eof,
    ]);
    let r = root_of(&w);
    let body = w.nodes[r].children[1];
    assert_eq!(w.nodes[body].children.len(), 3);
    assert_eq!(text_of(&w, w.nodes[body].children[0]), "a");
    assert_eq!(tag_of(&w, w.nodes[body].children[1]), "b");
    assert_eq!(text_of(&w, w.nodes[body].children[2]), "c");
}

#[test]
fn title_accumulates_text_in_head() {
    let w = parse(vec![
        start("html"),
        start("head"),
        start("title"),
        HtmlToken::Char('h'),
        HtmlToken::Char('i'),
        end("title"),
        end("head"),
        HtmlToken::Eof,
    ]);
    let r = root_of(&w);
    let head = w.nodes[r].children[0];
    assert_eq!(tag_of(&w, head), "head");
    let title = w.nodes[head].children[0];
    assert_eq!(tag_of(&w, title), "title");
    assert_eq!(text_of(&w, w.nodes[title].children[0]), "hi");
}

#[test]
fn meta_stays_childless_in_head() {
    let w = parse(vec![
        start("html"),
        start("head"),
        start("meta"),
        start("meta"),
        end("head"),
        HtmlToken::Eof,
    ]);
    let r = root_of(&w);
    let head = w.nodes[r].children[0];
    assert_eq!(w.nodes[head].children.len(), 2);
    for &m in &w.nodes[head].children {
        assert_eq!(tag_of(&w, m), "meta");
        assert!(w.nodes[m].children.is_empty());
    }
}

#[test]
fn self_closing_tag_takes_no_children() {
    let w = parse(vec![
        start("html"),
        start("body"),
        HtmlToken::StartTag {
            tag: "img".to_string(),
            self_closing: true,
            attributes: Vec::new(),
        },
        start("p"),
        HtmlToken::Eof,
    ]);
    let r = root_of(&w);
    let body = w.nodes[r].children[1];
    assert_eq!(w.nodes[body].children.len(), 2);
    let img = w.nodes[body].children[0];
    let p = w.nodes[body].children[1];
    assert_eq!(tag_of(&w, img), "img");
    assert!(w.nodes[img].children.is_empty());
    assert_eq!(tag_of(&w, p), "p");
}

#[test]
fn mismatched_end_tag_is_ignored() {
    let w = parse(vec![
        start("html"),
        start("body"),
        start("p"),
        end("div"),
        HtmlToken::Char('x'),
        HtmlToken::Eof,
    ]);
    let r = root_of(&w);
    let body = w.nodes[r].children[1];
    let p = w.nodes[body].children[0];
    // The stray end tag neither closed p nor created anything.
    assert_eq!(tag_of(&w, p), "p");
    assert_eq!(w.nodes[p].children.len(), 1);
    assert_eq!(text_of(&w, w.nodes[p].children[0]), "x");
}

#[test]
fn content_after_closed_html_reopens_body() {
    let w = parse(vec![
        start("html"),
        start("body"),
        end("body"),
        end("html"),
        HtmlToken::Char(' '),
        HtmlToken::Char('x'),
        HtmlToken::Eof,
    ]);
    let r = root_of(&w);
    let body = w.nodes[r].children[1];
    assert_eq!(tag_of(&w, body), "body");
    assert_eq!(w.nodes[body].children.len(), 1);
    assert_eq!(text_of(&w, w.nodes[body].children[0]), "x");
}

#[test]
fn attributes_are_kept_on_the_element() {
    let w = parse(vec![
        HtmlToken::StartTag {
            tag: "html".to_string(),
            self_closing: false,
            attributes: vec![Attribute { name: "lang".to_string(), value: "en".to_string() }],
        },
        HtmlToken::Eof,
    ]);
    let r = root_of(&w);
    match &w.nodes[r].kind {
        NodeKind::Element { tag, attributes } => {
            assert_eq!(tag, "html");
            assert_eq!(attributes.len(), 1);
            assert_eq!(attributes[0].name, "lang");
            assert_eq!(attributes[0].value, "en");
        },
        NodeKind::Text { .. } => panic!("root must be an element"),
    }
}

#[test]
fn tree_links_are_consistent() {
    let w = parse(vec![
        start("html"),
        start("body"),
        start("div"),
        HtmlToken::Char('x'),
        end("div"),
        start("div"),
        HtmlToken::Eof,
    ]);
    for (i, node) in w.nodes.iter().enumerate() {
        for &c in &node.children {
            assert_eq!(w.nodes[c].parent, Some(i));
            assert!(c > i);
        }
        if let Some(p) = node.parent {
            assert!(w.nodes[p].children.contains(&i));
        }
    }
}

#[test]
fn stray_end_tag_first_still_builds_the_skeleton() {
    let w = parse(vec![end("p"), HtmlToken::Eof]);
    let r = root_of(&w);
    assert_eq!(tag_of(&w, r), "html");
    assert_eq!(w.nodes[r].children.len(), 2);
    assert_eq!(tag_of(&w, w.nodes[r].children[0]), "head");
    assert_eq!(tag_of(&w, w.nodes[r].children[1]), "body");
    assert_eq!(w.nodes.len(), 3);
}

#[test]
fn trailing_whitespace_after_closing_everything_is_ignored() {
    let w = parse(vec![
        start("html"),
        start("body"),
        end("body"),
        end("html"),
        HtmlToken::Char('\n'),
        HtmlToken::Char(' '),
        HtmlToken::Eof,
    ]);
    let r = root_of(&w);
    let body = w.nodes[r].children[1];
    assert_eq!(tag_of(&w, body), "body");
    assert!(w.nodes[body].children.is_empty());
}

#[test]
fn nesting_depth_follows_the_markup() {
    let w = parse(vec![
        start("html"),
        start("body"),
        start("div"),
        start("span"),
        HtmlToken::Char('x'),
        HtmlToken::Eof,
    ]);
    let r = root_of(&w);
    let body = w.nodes[r].children[1];
    let div = w.nodes[body].children[0];
    let span = w.nodes[div].children[0];
    let text = w.nodes[span].children[0];
    assert_eq!(tag_of(&w, div), "div");
    assert_eq!(tag_of(&w, span), "span");
    assert_eq!(text_of(&w, text), "x");
    // Walking the parent links back up passes through each ancestor once.
    assert_eq!(w.nodes[text].parent, Some(span));
    assert_eq!(w.nodes[span].parent, Some(div));
    assert_eq!(w.nodes[div].parent, Some(body));
    assert_eq!(w.nodes[body].parent, Some(r));
    assert_eq!(w.nodes[r].parent, None);
}

#[test]
fn tokenizer_hands_tokens_out_in_order() {
    let mut t = HtmlTokenizer::new(vec![start("a"), HtmlToken::Char('x'), HtmlToken::Eof]);
    assert!(matches!(t.next(), Some(HtmlToken::StartTag { .. })));
    assert!(matches!(t.next(), Some(HtmlToken::Char('x'))));
    assert!(matches!(t.next(), Some(HtmlToken::Eof)));
    assert!(t.next().is_none());
    assert!(t.next().is_none());
}
