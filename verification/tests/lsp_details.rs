use crustal::bytes::fnv1a_hash;
use crustal::css::{generate_css_preview, unescape_simple_string};
use crustal::{
    analyzable, analyze, hover_at, hoverable, scan_macros, ByteRange, DiagnosticSeverity,
    DocumentStore, LineIndex, MacroKind, Position, Range,
};

fn pos(line: u32, character: u32) -> Position {
    Position { line, character }
}

fn messages(text: &str) -> Vec<String> {
    analyze(text)
        .diagnostics
        .into_iter()
        .map(|diag| diag.message)
        .collect()
}

#[test]
fn fnv1a_hash_known_values() {
    assert_eq!(fnv1a_hash(b""), 0x811c9dc5);
    assert_eq!(fnv1a_hash(b"a"), 0xe40c292c);
    assert_eq!(fnv1a_hash(b"foobar"), 0xbf9cf968);
    assert_eq!(fnv1a_hash(b"color: red;"), 0xdf044b6e);
}

#[test]
fn line_index_positions_count_utf16_units() {
    let text = "ab\ncd";
    let index = LineIndex::new(text);
    assert_eq!(index.position(0), pos(0, 0));
    assert_eq!(index.position(2), pos(0, 2));
    assert_eq!(index.position(3), pos(1, 0));
    assert_eq!(index.position(5), pos(1, 2));
    assert_eq!(index.position(99), pos(1, 2));

    let wide = "é😀x\ny";
    let index = LineIndex::new(wide);
    assert_eq!(index.position(2), pos(0, 1));
    assert_eq!(index.position(6), pos(0, 3));
    assert_eq!(index.position(7), pos(0, 4));
    assert_eq!(index.position(8), pos(1, 0));
}

#[test]
fn line_index_offsets_and_round_trip() {
    let text = "ab\ncd";
    let index = LineIndex::new(text);
    assert_eq!(index.offset(pos(1, 1)), Some(4));
    assert_eq!(index.offset(pos(0, 10)), Some(3));
    assert_eq!(index.offset(pos(1, 10)), Some(5));
    assert_eq!(index.offset(pos(2, 0)), None);

    let wide = "é😀x\ny\n";
    let index = LineIndex::new(wide);
    assert_eq!(index.offset(pos(0, 2)), Some(2));
    for (offset, _) in wide.char_indices().chain(std::iter::once((wide.len(), ' '))) {
        assert_eq!(index.offset(index.position(offset)), Some(offset));
    }
}

#[test]
fn line_index_range_converts_both_ends() {
    let index = LineIndex::new("x\nyz");
    assert_eq!(
        index.range(ByteRange::new(1, 4)),
        Range { start: pos(0, 1), end: pos(1, 2) }
    );
}

#[test]
fn scan_macros_reports_kinds_and_spans() {
    let text = "render!(<a></a>) css! [x] global_css!{y";
    let invocations = scan_macros(text);
    assert_eq!(invocations.len(), 3);
    assert_eq!(invocations[0].kind, MacroKind::Render);
    assert_eq!(invocations[0].name_range, ByteRange::new(0, 6));
    assert_eq!(invocations[0].body, ByteRange::new(8, 15));
    assert_eq!(invocations[0].whole, ByteRange::new(0, 16));
    assert!(invocations[0].closed);
    assert_eq!(invocations[1].kind, MacroKind::Css);
    assert_eq!(invocations[1].body, ByteRange::new(23, 24));
    assert_eq!(invocations[2].kind, MacroKind::GlobalCss);
    assert!(!invocations[2].closed);
    assert_eq!(invocations[2].body, ByteRange::new(38, 39));
    assert_eq!(invocations[2].whole, ByteRange::new(26, 39));
}

#[test]
fn scan_macros_skips_comments_and_other_identifiers() {
    let text = "// render! { <a> }\n/* css!(x) */ my_render! { } rendering!{} render ! ( )";
    let invocations = scan_macros(text);
    assert_eq!(invocations.len(), 1);
    assert_eq!(invocations[0].kind, MacroKind::Render);
    assert!(invocations[0].closed);
}

#[test]
fn text_without_macros_has_no_diagnostics() {
    assert!(analyze("fn main() { let x = 1; }").diagnostics.is_empty());
    assert!(analyze("").diagnostics.is_empty());
}

#[test]
fn unexpected_closing_tag_diagnostic_in_full() {
    let analysis = analyze("render! { </div> }");
    assert_eq!(analysis.diagnostics.len(), 1);
    let diag = &analysis.diagnostics[0];
    assert_eq!(diag.message, "unexpected closing tag");
    assert_eq!(diag.range, Range { start: pos(0, 12), end: pos(0, 15) });
    assert_eq!(diag.severity, DiagnosticSeverity::Error);
    assert_eq!(diag.source, "crustal-lsp");
}

#[test]
fn render_mismatch_names_the_expected_tag() {
    assert_eq!(
        messages("render! { <div></span> }"),
        vec![
            "mismatched closing tag: expected `</div>`".to_string(),
            "missing closing tag for `<div>`".to_string(),
        ]
    );
}

#[test]
fn render_missing_tag_name_and_greater_than() {
    assert_eq!(messages("render! { < }"), vec!["missing tag name".to_string()]);
    assert_eq!(
        messages("render! { <div></div }"),
        vec!["missing '>' in closing tag".to_string(), "missing closing tag for `<div>`".to_string()]
    );
    assert!(messages("render!(<div)")
        .iter()
        .any(|m| m == "missing '>' in opening tag"));
}

#[test]
fn render_self_closing_tag_is_reported() {
    assert!(messages("render! { <br/> }")
        .iter()
        .any(|m| m == "self-closing render! tags are not supported"));
}

#[test]
fn css_brace_diagnostics_in_global_css() {
    let analysis = analyze("global_css!(\"}\")");
    assert_eq!(analysis.diagnostics.len(), 1);
    assert_eq!(analysis.diagnostics[0].message, "unbalanced CSS closing brace");
    assert_eq!(analysis.diagnostics[0].range, Range { start: pos(0, 13), end: pos(0, 14) });

    let analysis = analyze("global_css!(\"body {\")");
    assert_eq!(analysis.diagnostics.len(), 1);
    assert_eq!(analysis.diagnostics[0].message, "unbalanced CSS opening brace");
    assert_eq!(analysis.diagnostics[0].range, Range { start: pos(0, 18), end: pos(0, 19) });
}

#[test]
fn css_unclosed_string_literal() {
    assert_eq!(
        messages("css!(\"color: red;)"),
        vec!["unclosed string literal in CSS macro".to_string()]
    );
    assert_eq!(
        messages("css!(\"color: red;\""),
        vec!["unclosed CSS macro delimiter".to_string()]
    );
}

#[test]
fn css_hover_message_in_full() {
    let text = "let c = css!(\"color: red;\");";
    let hover = hover_at(text, pos(0, 9)).unwrap();
    assert_eq!(
        hover.contents,
        "`css!` generates class `css-044b6e`.\n\nCompiled selector preview:\n```css\n.css-044b6e { color: red; }\n```"
    );
    assert_eq!(hover.range, Range { start: pos(0, 8), end: pos(0, 11) });
}

#[test]
fn global_css_hover_message_in_full() {
    let hover = hover_at("global_css!(\"body { margin: 0; }\");", pos(0, 0)).unwrap();
    assert_eq!(hover.contents, "`global_css!` injects CSS with style id `gcss-8b8baa`.");
}

#[test]
fn render_hover_ranges() {
    let text = "render! { <div class=\"x\">{name}</div> }";
    let element = hover_at(text, pos(0, 12)).unwrap();
    assert_eq!(
        element.contents,
        "Crustal render element `<div>`.\n\nSSR emits an HTML tag; the client renderer creates a DOM element."
    );
    assert_eq!(element.range, Range { start: pos(0, 11), end: pos(0, 14) });
    let closing = hover_at(text, pos(0, 34)).unwrap();
    assert_eq!(
        closing.contents,
        "Crustal render element `<div>`.\n\nMatched with its opening tag."
    );
    assert!(hover_at(text, pos(0, 9)).is_none());
    assert!(hover_at(text, pos(3, 0)).is_none());
}

#[test]
fn css_preview_forms() {
    let preview = |css: &str| String::from_utf8(generate_css_preview(b"c", css.as_bytes())).unwrap();
    assert_eq!(preview(""), ".c { }");
    assert_eq!(preview("  "), ".c { }");
    assert_eq!(preview("color: red;"), ".c { color: red; }");
    assert_eq!(preview("&:hover { color: blue; }"), ".c:hover { color: blue; }");
    assert_eq!(
        preview("@media (max-width: 1px) { gap: 0; }"),
        "@media (max-width: 1px) { .c { gap: 0; } }"
    );
    assert_eq!(preview("a { b }"), ".c { a { b } }");
    assert_eq!(
        preview("gap: 1px; & a { x: y; }"),
        ".c { gap: 1px; }"
    );
    assert_eq!(
        preview("& a { x: y; } & b { z: w; }"),
        ".c a { x: y; }\n.c b { z: w; }"
    );
}

#[test]
fn unescape_simple_string_escapes() {
    let run = |s: &str| {
        String::from_utf8(unescape_simple_string(s.as_bytes(), 0, s.len())).unwrap()
    };
    assert_eq!(run(r#"a\nb"#), "a\nb");
    assert_eq!(run(r#"\t\r\"\\"#), "\t\r\"\\");
    assert_eq!(run(r#"\q"#), "\\q");
    assert_eq!(run("end\\"), "end\\");
    assert_eq!(run("\\é"), "\\é");
}

#[test]
fn document_store_diagnostics_follow_the_latest_text() {
    let uri = "file:///a.rs".to_string();
    let other = "file:///b.rs".to_string();
    let mut store = DocumentStore::new();
    assert!(store.diagnostics(&uri).is_empty());
    let first = store.did_open(uri.clone(), "render! { </p> }".to_string());
    assert_eq!(first.len(), 1);
    store.did_open(other.clone(), "css! { a { } }".to_string());
    assert_eq!(store.diagnostics(&uri).len(), 1);
    let second = store.did_change(uri.clone(), "render! { <p></p> }".to_string());
    assert!(second.is_empty());
    assert!(store.diagnostics(&uri).is_empty());
    assert_eq!(
        store.diagnostics(&other).iter().map(|d| d.message.clone()).collect::<Vec<_>>(),
        vec!["nested selector blocks in css! must start with `&`".to_string()]
    );
    assert!(store.did_close(&other).is_empty());
    assert!(store.diagnostics(&other).is_empty());
    assert!(store.hover(&other, pos(0, 1)).is_none());
    assert!(store.hover(&uri, pos(0, 11)).is_some());
}

#[test]
fn spans_inside_a_character_are_detected() {
    assert!(analyzable("render! { <a></a> } // é"));
    assert!(analyzable("css!(\"color: red;\") é"));
    assert!(!analyzable("render! { é"));
    assert!(!analyzable("css!(\"\\\"é}\")"));
    assert!(!hoverable("render! { é", pos(0, 0)));
    assert!(hoverable("x render! { é", pos(0, 0)));
    assert!(hoverable("render! { é", pos(5, 0)));
    assert!(hoverable("render! { <a></a> }", pos(0, 11)));

    let mut store = DocumentStore::new();
    let uri = "file:///c.rs".to_string();
    assert!(store.can_hover(&uri, pos(0, 0)));
    store.did_open(uri.clone(), "render! { <a>é</a> }".to_string());
    assert!(store.can_hover(&uri, pos(0, 11)));
}

#[test]
fn messages_keep_non_ascii_text() {
    let hover = hover_at("css!(\"color: é;\")", pos(0, 1)).unwrap();
    assert_eq!(
        hover.contents,
        "`css!` generates class `css-93f73f`.\n\nCompiled selector preview:\n```css\n.css-93f73f { color: é; }\n```"
    );
    let hover = hover_at("css! { & a { x: \"é\"; } }", pos(0, 0)).unwrap();
    assert!(hover.contents.contains(" a { x: \"é\"; }\n```"));
    assert_eq!(
        messages("render! { <a>é</b> }"),
        vec![
            "mismatched closing tag: expected `</a>`".to_string(),
            "missing closing tag for `<a>`".to_string(),
        ]
    );
}
