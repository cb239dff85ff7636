use crustal::{analyze, hover_at, scan_macros, DocumentStore, LineIndex, Position};

fn messages(text: &str) -> Vec<String> {
    analyze(text)
        .diagnostics
        .into_iter()
        .map(|diag| diag.message)
        .collect()
}

fn hover_text(text: &str, needle: &str) -> String {
    let offset = text.find(needle).unwrap();
    let position = LineIndex::new(text).position(offset);
    let hover = hover_at(text, position).unwrap();
    hover.contents
}

#[test]
fn scans_multiple_macros_and_ignores_strings() {
    let text = r#"fn main() {
            let _ = "render! { <bad> }";
            let a = render! { <div>{ "{x}" }</div> };
            let b = css!("color: red;");
            global_css! { body { margin: 0; } }
        }"#;
    let invocations = scan_macros(text);
    assert_eq!(invocations.len(), 3);
}

#[test]
fn scanner_handles_nested_rust_braces_and_string_delimiters() {
    let text = r#"render!({ <div>{ format!("}})") }</div> }) css! { color: red; }"#;
    let invocations = scan_macros(text);
    assert_eq!(invocations.len(), 2);
    assert!(invocations.iter().all(|inv| inv.closed));
}

#[test]
fn render_valid_nested_tags() {
    assert!(messages("render! { <div><span>{name}</span></div> }").is_empty());
}

#[test]
fn render_reports_mismatched_missing_and_unexpected_tags() {
    assert!(messages("render! { <div></span> }")
        .iter()
        .any(|msg| msg.contains("mismatched closing tag")));
    assert!(messages("render! { <div><span></div> }")
        .iter()
        .any(|msg| msg.contains("missing closing tag")));
    assert!(messages("render! { </div> }")
        .iter()
        .any(|msg| msg.contains("unexpected closing tag")));
}

#[test]
fn render_reports_attribute_syntax_errors() {
    let msgs = messages("render! { <div class id=></div> }");
    assert!(msgs.iter().any(|msg| msg.contains("missing `=`")));
    assert!(msgs.iter().any(|msg| msg.contains("missing a value")));
}

#[test]
fn render_reports_unbalanced_expression_and_macro_delimiter() {
    let msgs = messages("render! { <div>{ value </div>");
    assert!(msgs
        .iter()
        .any(|msg| msg.contains("unclosed render! macro")));
    assert!(msgs
        .iter()
        .any(|msg| msg.contains("unbalanced braced expression")));
}

#[test]
fn css_accepts_string_token_nested_and_media_forms() {
    assert!(messages(r#"css!("color: red;")"#).is_empty());
    assert!(messages("css! { color: red; &:hover { color: blue; } }").is_empty());
    assert!(messages("css! { @media (max-width: 768px) { font-size: 12px; } }").is_empty());
}

#[test]
fn css_reports_unbalanced_unterminated_and_invalid_nested_selector() {
    let msgs = messages("css! { color: red &:hover { color: blue; } h1 { color: black; }");
    assert!(msgs.iter().any(|msg| msg.contains("unclosed CSS macro")));
    assert!(msgs
        .iter()
        .any(|msg| msg.contains("unterminated CSS declaration")));
    assert!(msgs.iter().any(|msg| msg.contains("must start with `&`")));
}

#[test]
fn css_hover_uses_fnv_hash_class_name() {
    let hover = hover_text(r#"let c = css!("color: red;");"#, "css");
    assert!(hover.contains("css-044b6e"));
    assert!(hover.contains(".css-044b6e"));
}

#[test]
fn global_css_hover_uses_style_id() {
    let hover = hover_text(r#"global_css!("body { margin: 0; }");"#, "global_css");
    assert!(hover.contains("gcss-"));
}

#[test]
fn render_hover_describes_tags_attributes_and_exprs() {
    assert!(
        hover_text(r#"render! { <div class="x">{name}</div> }"#, "div")
            .contains("Crustal render element")
    );
    assert!(
        hover_text(r#"render! { <div class="x">{name}</div> }"#, "class")
            .contains("set_attribute")
    );
    assert!(
        hover_text(r#"render! { <div class="x">{name}</div> }"#, "{name}")
            .contains("Bindable::bind")
    );
}

#[test]
fn hover_returns_none_outside_supported_regions() {
    let position = Position {
        line: 0,
        character: 0,
    };
    assert!(hover_at("fn main() {}", position).is_none());
}

#[test]
fn document_store_open_change_close_and_hover() {
    let uri = "file:///tmp/app.rs".to_string();
    let mut store = DocumentStore::default();
    let diagnostics = store.did_open(uri.clone(), "render! { <div></span> }".to_string());
    assert!(diagnostics
        .iter()
        .any(|diag| diag.message.contains("mismatched closing tag")));

    let clean = store.did_change(uri.clone(), "render! { <div></div> }".to_string());
    assert!(clean.is_empty());

    let hover = store.hover(
        &uri,
        Position {
            line: 0,
            character: 11,
        },
    );
    assert!(hover.is_some());

    let cleared = store.did_close(&uri);
    assert!(cleared.is_empty());
    assert!(store.hover(&uri, Position::default()).is_none());
}
