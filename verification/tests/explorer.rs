use fresh_gui_app::explorer::{
    absolute_paths_text, apply_selection, copyable_sources, drag_paths, gesture_from_modifiers,
    is_placeholder, is_same_or_descendant, is_untitled_editor_key, movable_sources, parent_dir,
    pick_goto_target, real_ids, record_tree_toggle, save_target_path, unused_file_name,
    untitled_editor_key, ExpandedSet, SelectGesture,
};
use fresh_gui_app::editor::{terminal_title, SessionTabTitle};

fn s(v: &str) -> String {
    v.to_string()
}

#[test]
fn selected_windows_file_has_a_directory() {
    assert_eq!(parent_dir("C:\\work\\project\\file.rs"), Some("C:\\work\\project".into()));
    assert_eq!(parent_dir("C:\\file.rs"), Some("C:\\".into()));
}

#[test]
fn plain_click_replaces_selection() {
    let (next, anchor) = apply_selection(
        &[s("/a"), s("/b")],
        Some("/a"),
        &[s("/a"), s("/b"), s("/c")],
        "/c",
        SelectGesture::Replace,
    );
    assert_eq!(next, vec!["/c".to_string()]);
    assert_eq!(anchor.as_deref(), Some("/c"));
}

#[test]
fn ctrl_click_toggles() {
    let visible = [s("/a"), s("/b")];
    let (next, _) = apply_selection(&[s("/a")], Some("/a"), &visible, "/b", SelectGesture::Toggle);
    assert_eq!(next, vec!["/a".to_string(), "/b".to_string()]);
    let (next, anchor) = apply_selection(&next, Some("/b"), &visible, "/a", SelectGesture::Toggle);
    assert_eq!(next, vec!["/b".to_string()]);
    assert_eq!(anchor.as_deref(), Some("/b"));
}

#[test]
fn shift_click_selects_inclusive_range_and_keeps_anchor() {
    let visible = vec![s("/a"), s("/b"), s("/c"), s("/d")];
    let (next, anchor) = apply_selection(&[s("/b")], Some("/b"), &visible, "/d", SelectGesture::Range);
    assert_eq!(next, vec!["/b".to_string(), "/c".to_string(), "/d".to_string()]);
    assert_eq!(anchor.as_deref(), Some("/b"));
    let (next, _) = apply_selection(&next, Some("/b"), &visible, "/a", SelectGesture::Range);
    assert_eq!(next, vec!["/a".to_string(), "/b".to_string()]);
}

#[test]
fn drag_uses_the_whole_selection_only_when_the_row_is_in_it() {
    let selected = vec![s("/a"), s("/c")];
    assert_eq!(drag_paths(&selected, "/c"), selected);
    assert_eq!(drag_paths(&selected, "/b"), vec!["/b".to_string()]);
}

#[test]
fn move_skips_self_descendants_and_same_folder() {
    assert_eq!(
        movable_sources(&[s("/proj/a"), s("/proj/dir"), s("/proj/dir/child")], "/proj/dir"),
        vec!["/proj/a".to_string()]
    );
    assert_eq!(
        movable_sources(&[s("/proj/a"), s("/proj/b")], "/proj/other"),
        vec!["/proj/a".to_string(), "/proj/b".to_string()]
    );
    assert!(movable_sources(&[s("/proj/dir")], "/proj/dir/nested").is_empty());
    assert_eq!(movable_sources(&[s("/tmp")], "/tmp2"), vec!["/tmp".to_string()]);
    assert!(movable_sources(&[s("/tmp/file")], "/tmp").is_empty());
}

#[test]
fn copy_allows_same_folder_but_not_into_self() {
    assert_eq!(copyable_sources(&[s("/proj/a")], "/proj"), vec!["/proj/a".to_string()]);
    assert!(copyable_sources(&[s("/proj/dir")], "/proj/dir/nested").is_empty());
}

#[test]
fn copy_path_text_is_absolute_and_newline_separated() {
    assert_eq!(absolute_paths_text(&[s("/proj/a"), s("/proj/b")]), "/proj/a\n/proj/b");
}

#[test]
fn terminal_titles_are_plain_numbers() {
    assert_eq!(terminal_title(1), "1");
    assert_eq!(terminal_title(2), "2");
    assert_eq!(terminal_title(12), "12");
    let title = SessionTabTitle::numbered(3);
    assert_eq!(title.label, "3");
    assert!(!title.custom);
    assert!(title.workspace_id.is_none());
}

#[test]
fn only_the_toggled_directory_expands() {
    let mut expanded = ExpandedSet::new();
    record_tree_toggle(&mut expanded, "/proj/src", true);
    record_tree_toggle(&mut expanded, "/proj/docs", true);
    record_tree_toggle(&mut expanded, "/proj/docs", false);
    record_tree_toggle(&mut expanded, "/proj/src/.", true);
    assert!(expanded.contains("/proj/src"));
    assert!(!expanded.contains("/proj/docs"));
    assert!(!expanded.paths().iter().any(|path| is_placeholder(path)));
    assert_eq!(expanded.len(), 1);
}

#[test]
fn new_file_names_skip_names_already_present() {
    assert_eq!(unused_file_name(&["readme"]), "untitled");
    assert_eq!(unused_file_name(&["untitled", "untitled-2"]), "untitled-3");
    assert_eq!(untitled_editor_key("7"), "untitled:7");
    assert!(is_untitled_editor_key("untitled:7"));
    assert!(!is_untitled_editor_key("/tmp/untitled"));
    assert_eq!(save_target_path("/work/proj", "notes.rs"), "/work/proj/notes.rs");
    assert_eq!(save_target_path("/work/proj", "/tmp/other.rs"), "/tmp/other.rs");
    assert_eq!(save_target_path(r"C:\work", "a.txt"), r"C:\work\a.txt");
    assert_eq!(
        pick_goto_target("lib.rs", &["/proj/src/lib.rs", "/proj/src/main.rs"]),
        "/proj/src/lib.rs"
    );
    assert_eq!(pick_goto_target("src/main.rs:12", &["/proj/src/main.rs"]), "src/main.rs:12");
}

#[test]
fn placeholder_rows_are_not_real_ids() {
    assert!(is_placeholder("/proj/src/."));
    assert_eq!(
        real_ids(&["/proj/src", "/proj/src/.", "/proj/src/main.rs"]),
        vec!["/proj/src".to_string(), "/proj/src/main.rs".to_string()]
    );
}

#[test]
fn toggling_a_folder_twice_restores_the_selection() {
    let visible = [s("/a"), s("/b"), s("/c")];
    let start = vec![s("/a"), s("/c")];
    let (once, _) = apply_selection(&start, Some("/a"), &visible, "/b", SelectGesture::Toggle);
    let (twice, _) = apply_selection(&once, Some("/a"), &visible, "/b", SelectGesture::Toggle);
    let mut sorted_twice = twice.clone();
    sorted_twice.sort();
    assert_eq!(sorted_twice, start);
}

#[test]
fn gestures_and_descendants() {
    assert_eq!(gesture_from_modifiers(true, false), SelectGesture::Range);
    assert_eq!(gesture_from_modifiers(false, true), SelectGesture::Toggle);
    assert_eq!(gesture_from_modifiers(false, false), SelectGesture::Replace);
    assert!(is_same_or_descendant("/a/b", "/a"));
    assert!(is_same_or_descendant("/a", "/a"));
    assert!(!is_same_or_descendant("/ab", "/a"));
    assert_eq!(parent_dir("/proj/a"), Some("/proj".into()));
    assert_eq!(parent_dir("/"), None);
}

#[test]
fn expanded_folders_are_saved_in_name_order() {
    let mut set = fresh_gui_app::explorer::ExpandedSet::new();
    set.insert("/w/src");
    set.insert("/w/Docs");
    set.insert("/w/a");
    set.insert("/w/src");
    assert_eq!(set.sorted_paths(), vec!["/w/Docs".to_string(), "/w/a".to_string(), "/w/src".to_string()]);
    assert!(fresh_gui_app::explorer::ExpandedSet::new().sorted_paths().is_empty());
}

#[test]
fn movable_sources_keep_the_copyable_order() {
    let sources = [s("/proj/a"), s("/proj/dir"), s("/proj/dir/child"), s("/other/b")];
    let copy = copyable_sources(&sources, "/proj/dir");
    let moved = movable_sources(&sources, "/proj/dir");
    assert_eq!(copy, vec![s("/proj/a"), s("/proj/dir/child"), s("/other/b")]);
    assert_eq!(moved, vec![s("/proj/a"), s("/other/b")]);
    let mut it = copy.iter();
    assert!(moved.iter().all(|m| it.any(|c| c == m)));
    assert_eq!(copyable_sources(&[s("/proj/a")], "/proj"), vec![s("/proj/a")]);
    assert!(copyable_sources(&[s("/proj/dir")], "/proj/dir/nested").is_empty());
}

#[test]
fn copied_path_text_splits_back_into_the_paths() {
    let paths = vec![s("/proj/a"), s(""), s("C:\\x y")];
    let text = absolute_paths_text(&paths);
    assert_eq!(text.split('\n').map(String::from).collect::<Vec<_>>(), paths);
}
