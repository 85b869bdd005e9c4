use fresh_gui_app::preview::{classify_line, preview_blocks, PreviewBlock};

#[test]
fn each_line_becomes_its_block() {
    let source = "# Title\n\n> quoted\n- [x] done\n- item\n| a | b |\n|---|---|\n---\n<p>hi<br>there</p>\n$$ x^2 $$\nplain *text*\n```\nlet x = 1;\n```\nafter";
    let lines = preview_blocks(source);
    let blocks: Vec<(usize, &PreviewBlock)> = lines.iter().map(|l| (l.index, &l.block)).collect();
    assert_eq!(
        blocks,
        vec![
            (0, &PreviewBlock::Heading(1, "Title".into())),
            (1, &PreviewBlock::Blank),
            (2, &PreviewBlock::Quote("quoted".into())),
            (3, &PreviewBlock::Task(true, "done".into())),
            (4, &PreviewBlock::ListItem("item".into())),
            (5, &PreviewBlock::TableRow(vec!["a".into(), "b".into()])),
            (6, &PreviewBlock::TableRow(vec![])),
            (7, &PreviewBlock::Rule),
            (8, &PreviewBlock::Html("hi\nthere".into())),
            (9, &PreviewBlock::Math("x^2".into())),
            (10, &PreviewBlock::Paragraph("plain *text*".into())),
            (12, &PreviewBlock::Code("let x = 1;".into())),
            (14, &PreviewBlock::Paragraph("after".into())),
        ]
    );
    // Fence lines are not shown; code lines keep their text as written.
    assert!(lines.iter().all(|l| l.index != 11 && l.index != 13));
}

#[test]
fn code_blocks_keep_markdown_literal() {
    assert_eq!(classify_line("# not a heading", true), PreviewBlock::Code("# not a heading".into()));
    assert_eq!(classify_line("   ", false), PreviewBlock::Blank);
    assert_eq!(classify_line("$$$$", false), PreviewBlock::Paragraph("$$$$".into()));
    assert_eq!(classify_line("<br />", false), PreviewBlock::Html("".into()));
}
