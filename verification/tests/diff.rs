use fresh_gui_app::diff::{git_relative, join_repo, split_diff_lines, text_lines, RowKind, SplitRow};
use fresh_gui_app::diff::{right_diff_highlights, row_for_right_line, DiffHighlight};

#[test]
fn split_pairs_a_change() {
    let rows = split_diff_lines("a\nb\nc\n", "a\nB\nc\n");
    assert_eq!(
        rows,
        vec![
            SplitRow { left: Some("a".into()), right: Some("a".into()), kind: RowKind::Same },
            SplitRow { left: Some("b".into()), right: Some("B".into()), kind: RowKind::Changed },
            SplitRow { left: Some("c".into()), right: Some("c".into()), kind: RowKind::Same },
        ]
    );
}

#[test]
fn split_shows_insert_and_delete() {
    let rows = split_diff_lines("a\n", "a\nb\n");
    assert_eq!(rows.len(), 2);
    assert_eq!(rows[1].kind, RowKind::Added);
    assert_eq!(rows[1].right.as_deref(), Some("b"));
    let rows = split_diff_lines("a\nb\n", "a\n");
    assert_eq!(rows[1].kind, RowKind::Removed);
    assert_eq!(rows[1].left.as_deref(), Some("b"));
}

#[test]
fn split_reclassifies_rows_against_original_after_edit() {
    let rows = split_diff_lines("one\ntwo\n", "one\nthree\nfour\n");
    assert_eq!(rows[1].kind, RowKind::Changed);
    assert_eq!(rows[1].left.as_deref(), Some("two"));
    assert_eq!(rows[1].right.as_deref(), Some("three"));
    assert_eq!(rows[2].kind, RowKind::Added);
    assert_eq!(rows[2].right.as_deref(), Some("four"));
}

#[test]
fn relative_path_strips_the_repo_root() {
    assert_eq!(git_relative("/work/proj", "/work/proj/src/main.rs", false).as_deref(), Some("src/main.rs"));
    assert_eq!(git_relative("/work/proj", "/other/file.rs", false), None);
    assert_eq!(git_relative("/work/proj", "src/a.rs", false).as_deref(), Some("src/a.rs"));
}

#[test]
fn relative_paths_refuse_escapes_and_fold_case_on_windows() {
    assert_eq!(git_relative("/work/proj/", "/work/proj", false), None);
    assert_eq!(git_relative("/work/proj", "/work/proj/../x", false), None);
    assert_eq!(git_relative("", "a.rs", false), None);
    assert_eq!(git_relative(r"C:\Work\Proj", r"c:\work\proj\src\A.rs", true).as_deref(), Some("src/A.rs"));
    assert_eq!(git_relative(r"C:\Work\Proj", r"c:\work\proj\src\A.rs", false), None);
    assert_eq!(join_repo("/work/proj/", "/src/a.rs"), "/work/proj/src/a.rs");
    assert_eq!(join_repo(r"C:\work", "src/a.rs"), r"C:\work\src/a.rs");
    assert_eq!(join_repo("", "/a"), "a");
}

#[test]
fn lines_follow_str_lines() {
    for text in ["", "a", "a\n", "a\r\nb", "a\n\nb\r", "\n"] {
        let expected: Vec<String> = text.lines().map(String::from).collect();
        assert_eq!(text_lines(text), expected, "{text:?}");
    }
}

#[test]
fn every_line_appears_once_on_its_side() {
    let old = "x\ny\nz\nw\n";
    let new = "y\nq\nz\nx\n";
    let rows = split_diff_lines(old, new);
    let left: Vec<&str> = rows.iter().filter_map(|r| r.left.as_deref()).collect();
    let right: Vec<&str> = rows.iter().filter_map(|r| r.right.as_deref()).collect();
    assert_eq!(left, vec!["x", "y", "z", "w"]);
    assert_eq!(right, vec!["y", "q", "z", "x"]);
    assert_eq!(rows.iter().filter(|r| r.kind == RowKind::Same).count(), 2);
}

#[test]
fn oversized_texts_get_one_message_row() {
    let old = "l\n".repeat(2001);
    let rows = split_diff_lines(&old, "a\n");
    assert_eq!(rows.len(), 1);
    assert_eq!(rows[0].left.as_deref(), Some("File is too large for a split diff (2001 / 1 lines)."));
    assert_eq!(rows[0].right, None);
    assert_eq!(rows[0].kind, RowKind::Same);
}

fn row(left: Option<&str>, right: Option<&str>, kind: RowKind) -> SplitRow {
    SplitRow { left: left.map(String::from), right: right.map(String::from), kind }
}

#[test]
fn added_and_changed_rows_get_backgrounds() {
    let rows = vec![
        row(Some("a"), Some("a"), RowKind::Same),
        row(Some("b"), Some("B"), RowKind::Changed),
        row(Some("x"), None, RowKind::Removed),
        row(None, Some("c"), RowKind::Added),
    ];
    assert_eq!(
        right_diff_highlights("a\nB\nc\n", &rows),
        vec![
            DiffHighlight { start: 2, end: 4, kind: RowKind::Changed },
            DiffHighlight { start: 4, end: 6, kind: RowKind::Added },
        ]
    );
}

#[test]
fn crlf_stays_inside_the_range() {
    let rows = vec![row(None, Some("a"), RowKind::Added), row(None, Some("b"), RowKind::Added)];
    assert_eq!(
        right_diff_highlights("a\r\nb\r\n", &rows),
        vec![
            DiffHighlight { start: 0, end: 3, kind: RowKind::Added },
            DiffHighlight { start: 3, end: 6, kind: RowKind::Added },
        ]
    );
}

#[test]
fn mismatched_lines_advance_by_their_own_length() {
    let rows = vec![row(None, Some("ab"), RowKind::Added), row(None, Some("q"), RowKind::Added)];
    assert_eq!(
        right_diff_highlights("xyz", &rows),
        vec![
            DiffHighlight { start: 0, end: 2, kind: RowKind::Added },
            DiffHighlight { start: 2, end: 3, kind: RowKind::Added },
        ]
    );
    let rows = vec![row(None, Some("x"), RowKind::Added), row(None, Some("y"), RowKind::Added)];
    assert_eq!(
        right_diff_highlights("é", &rows),
        vec![DiffHighlight { start: 0, end: 1, kind: RowKind::Added }]
    );
    assert!(right_diff_highlights("", &rows).is_empty());
}

#[test]
fn new_side_lines_map_to_their_split_rows() {
    let rows = split_diff_lines("a\nb\nc\n", "a\nc\nd\n");
    let right: Vec<usize> = (0..rows.len()).filter(|&i| rows[i].right.is_some()).collect();
    for (line, row) in right.iter().enumerate() {
        assert_eq!(row_for_right_line(&rows, line), Some(*row));
    }
    assert_eq!(row_for_right_line(&rows, right.len()), None);
    let manual = vec![
        SplitRow { left: Some("a".into()), right: Some("a".into()), kind: RowKind::Same },
        SplitRow { left: Some("b".into()), right: None, kind: RowKind::Removed },
        SplitRow { left: Some("c".into()), right: Some("c".into()), kind: RowKind::Same },
        SplitRow { left: None, right: Some("d".into()), kind: RowKind::Added },
    ];
    assert_eq!(row_for_right_line(&manual, 0), Some(0));
    assert_eq!(row_for_right_line(&manual, 1), Some(2));
    assert_eq!(row_for_right_line(&manual, 2), Some(3));
    assert_eq!(row_for_right_line(&manual, 3), None);
}

#[test]
fn split_rows_show_both_texts_whole() {
    let old = "a\nb\nc\nd\n";
    let new = "a\nx\nc\ny\nz\n";
    let rows = split_diff_lines(old, new);
    let lefts: Vec<&str> = rows.iter().filter_map(|r| r.left.as_deref()).collect();
    let rights: Vec<&str> = rows.iter().filter_map(|r| r.right.as_deref()).collect();
    assert_eq!(lefts, vec!["a", "b", "c", "d"]);
    assert_eq!(rights, vec!["a", "x", "c", "y", "z"]);
    let same: Vec<&SplitRow> = rows.iter().filter(|r| r.kind == RowKind::Same).collect();
    assert_eq!(same.len(), 2);
    assert!(same.iter().all(|r| r.left.is_some() && r.left == r.right));
}

#[test]
fn changed_rows_never_pair_equal_lines() {
    let rows = split_diff_lines("x\ny\nz\n", "y\nx\nw\n");
    for row in &rows {
        if row.kind == RowKind::Changed {
            assert_ne!(row.left, row.right);
        }
    }
    assert!(rows.iter().any(|row| row.kind == RowKind::Changed));
}
