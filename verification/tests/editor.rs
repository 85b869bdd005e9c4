use fresh_gui_app::editor::{
    editor_path_candidates, editor_path_tokens, is_ui_zoom_in_chord, language_from_path, terminal_link_hover,
    terminal_link_range, utf16_to_scalar_column,
};

#[test]
fn extracts_remote_and_relative_paths_with_utf8_byte_offsets() {
    let line = "é src/my-file.rs:12 C:\\work\\other.log:3 plain";
    let tokens = editor_path_tokens(line);
    let values: Vec<_> = tokens.iter().map(|(range, _)| &line[range.clone()]).collect();
    assert_eq!(values, vec!["src/my-file.rs:12", "C:\\work\\other.log:3"]);
    assert_eq!(tokens[0].1, 2);
}

#[test]
fn path_tokens_get_ctrl_hover_range_but_words_do_not() {
    let line = "edit src/main.rs and README";
    let path_col = line.find("main").unwrap();
    assert_eq!(terminal_link_range(line, path_col), Some((5, 16)));
    assert_eq!(terminal_link_range(line, line.find("README").unwrap()), None);
    assert_eq!(terminal_link_hover(Some((0, 5, 16)), false, false, false), None);
    assert_eq!(terminal_link_hover(Some((0, 5, 16)), false, false, true), Some((0, 5, 16)));
}

#[test]
fn path_extraction_keeps_line_suffix_and_windows_separators() {
    let line = r"open C:\work\my-file_2.rs:17:3 now";
    let col = line.find("my-file").unwrap();
    let (start, end) = terminal_link_range(line, col).unwrap();
    assert_eq!(&line[start..end], r"C:\work\my-file_2.rs:17:3");
    assert_eq!(terminal_link_range("open README now", 6), None);
}

#[test]
fn shifted_plus_and_equal_reach_ui_zoom() {
    assert!(is_ui_zoom_in_chord("=", Some("+"), true, true, false));
    assert!(is_ui_zoom_in_chord("+", None, true, true, false));
    assert!(!is_ui_zoom_in_chord("=", None, false, false, false));
}

#[test]
fn maps_common_editor_extensions_to_registered_language_names() {
    for (path, expected) in [
        ("src/lib.rs", "rust"),
        ("main.py", "python"),
        ("app.js", "javascript"),
        ("app.ts", "typescript"),
        ("view.tsx", "tsx"),
        ("data.json", "json"),
        ("Cargo.toml", "toml"),
        ("README.md", "markdown"),
        ("config.yaml", "yaml"),
        ("script.sh", "bash"),
        ("index.html", "html"),
        ("site.css", "css"),
        ("main.c", "c"),
        ("header.h", "c"),
        ("main.cpp", "cpp"),
        ("header.hpp", "cpp"),
        ("main.go", "go"),
        ("server.log", "log"),
        ("server.log.1", "log"),
        ("daemon.trace", "log"),
    ] {
        assert_eq!(language_from_path(path, None).as_deref(), Some(expected), "{path}");
    }
}

#[test]
fn reported_language_takes_precedence_over_extension() {
    assert_eq!(
        language_from_path("file.txt", Some("custom-language")).as_deref(),
        Some("custom-language")
    );
    assert_eq!(language_from_path("x.log", Some("custom")).as_deref(), Some("log"));
    assert_eq!(language_from_path("C:\\A\\B.RS", None).as_deref(), Some("rust"));
    assert_eq!(language_from_path("notes.txt", None), None);
}

#[test]
fn diagnostic_columns_after_non_bmp_characters() {
    assert_eq!(utf16_to_scalar_column("first\na😀b\n", 1, 3), 2);
    assert_eq!(utf16_to_scalar_column("first\na😀b\n", 1, 4), 3);
    assert_eq!(utf16_to_scalar_column("first\na😀b\n", 1, 2), 1);
    assert_eq!(utf16_to_scalar_column("first\n", 5, 2), 0);
}

#[test]
fn path_candidates_carry_whole_text_byte_ranges() {
    let text = "see src/main.rs:3\r\nand ~/x.txt\nplain\né a/b";
    let got = editor_path_candidates(text);
    assert_eq!(
        got,
        vec![
            ("see src/main.rs:3".to_string(), 4, 4..17),
            ("and ~/x.txt".to_string(), 4, 23..30),
            ("é a/b".to_string(), 2, 40..43),
        ]
    );
    for (_, _, range) in &got {
        assert!(text.is_char_boundary(range.start) && text.is_char_boundary(range.end));
    }
    assert_eq!(&text[23..30], "~/x.txt");
    assert!(editor_path_candidates("").is_empty());
}

#[test]
fn diagnostic_rows_count_from_one_and_flatten_messages() {
    use_label();
}

fn use_label() {
    assert_eq!(
        fresh_gui_app::editor::diagnostic_label(0, 4, Some("rustc"), "expected `;`\nfound `}`"),
        "1:5 rustc: expected `;` found `}`"
    );
    assert_eq!(fresh_gui_app::editor::diagnostic_label(9, 0, None, "unused"), "10:1 LSP: unused");
    assert_eq!(
        fresh_gui_app::editor::diagnostic_label(u32::MAX, 0, None, "x"),
        "4294967296:1 LSP: x"
    );
}
