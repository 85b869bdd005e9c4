use fresh_gui_app::markdown::{
    markdown_edit_parts, markdown_heading, markdown_list_item, markdown_table_row,
    markdown_task_item, parse_inline_markdown, replace_markdown_line, InlinePart,
};

#[test]
fn parse_inline_markdown_bold_and_code() {
    let parts = parse_inline_markdown("a **b** and `c`");
    assert!(parts.iter().any(|p| matches!(p, InlinePart::Bold(s) if s == "b")));
    assert!(parts.iter().any(|p| matches!(p, InlinePart::Code(s) if s == "c")));
}

#[test]
fn task_items_and_math_markers() {
    assert_eq!(markdown_task_item("- [x] done"), Some((true, "done")));
    let parts = parse_inline_markdown("energy $E=mc^2$ here");
    assert!(parts.iter().any(|p| matches!(p, InlinePart::Math(s) if s == "E=mc^2")));
}

#[test]
fn recognizes_heading_depth_and_list_items() {
    assert_eq!(markdown_heading("### Details"), Some((3, "Details")));
    assert_eq!(markdown_heading("####### not a heading"), None);
    assert_eq!(markdown_list_item("- first"), Some("first"));
    assert_eq!(markdown_list_item("4. fourth"), Some("fourth"));
    assert_eq!(markdown_list_item("not a list"), None);
}

#[test]
fn inline_preview_edits_preserve_markers_and_line_endings() {
    assert_eq!(
        markdown_edit_parts("### Old title", false),
        Some(("### ".into(), "Old title".into(), String::new()))
    );
    assert_eq!(
        replace_markdown_line("# old\r\n- item\r\n", 1, "- ", "updated", ""),
        "# old\r\n- updated\r\n"
    );
}

#[test]
fn inline_spans_in_order() {
    let parts = parse_inline_markdown("see [docs](http://x) ![logo](a.png) *it* __b__ $$ x $$!");
    assert_eq!(
        parts,
        vec![
            InlinePart::Text("see ".into()),
            InlinePart::Link { text: "docs".into(), href: "http://x".into() },
            InlinePart::Text(" ".into()),
            InlinePart::Image { alt: "logo".into(), src: "a.png".into() },
            InlinePart::Text(" ".into()),
            InlinePart::Italic("it".into()),
            InlinePart::Text(" ".into()),
            InlinePart::Bold("b".into()),
            InlinePart::Text(" ".into()),
            InlinePart::Math("x".into()),
            InlinePart::Text("!".into()),
        ]
    );
    assert_eq!(parse_inline_markdown("a ** b"), vec![InlinePart::Text("a ** b".into())]);
    assert_eq!(parse_inline_markdown(""), Vec::<InlinePart>::new());
}

#[test]
fn tables_and_tasks() {
    assert_eq!(
        markdown_table_row(" | a | b | "),
        Some(vec!["a".to_string(), "b".to_string()])
    );
    assert_eq!(markdown_table_row("|---|:--:|"), Some(vec![]));
    assert_eq!(markdown_table_row("a | b"), None);
    assert_eq!(markdown_task_item("  * [ ] todo"), Some((false, "todo")));
    assert_eq!(markdown_task_item("- [y] no"), None);
}

#[test]
fn edit_parts_for_quotes_bullets_and_numbers() {
    assert_eq!(markdown_edit_parts("  > quoted", false), Some(("  > ".into(), "quoted".into(), String::new())));
    assert_eq!(markdown_edit_parts("-  item", false), Some(("-  ".into(), "item".into(), String::new())));
    assert_eq!(markdown_edit_parts("12. twelve", false), Some(("12. ".into(), "twelve".into(), String::new())));
    assert_eq!(markdown_edit_parts("#nospace", false), Some((String::new(), "#nospace".into(), String::new())));
    assert_eq!(markdown_edit_parts("# code", true), Some((String::new(), "# code".into(), String::new())));
    assert_eq!(markdown_edit_parts("   ", false), Some((String::new(), "   ".into(), String::new())));
}

#[test]
fn replacing_lines_keeps_the_rest() {
    assert_eq!(replace_markdown_line("a\nb", 1, "", "c", ""), "a\nc");
    assert_eq!(replace_markdown_line("a\nb\n", 2, "", "c", ""), "a\nb\n");
    assert_eq!(replace_markdown_line("", 0, "- ", "x", ""), "- x");
    let source = "one\r\ntwo\nthree";
    assert_eq!(replace_markdown_line(source, 1, "", "two", ""), source);
}
