use fresh_gui_app::git_tree::{
    git_change_rows, git_dir_paths, git_path_parts, stage_flags, status_label, GitFile,
    GitTreeRow,
};
use fresh_gui_app::git_tree::{git_rel_for, retain_present, GitPathIndex};

fn file(path: &str) -> GitFile {
    GitFile { path: path.into(), xy: " M".into() }
}

fn labels(rows: &[GitTreeRow]) -> Vec<String> {
    rows.iter()
        .map(|row| match row {
            GitTreeRow::Dir { path, depth, .. } => format!("d{depth}:{path}"),
            GitTreeRow::File { file, depth, name } => format!("f{depth}:{name}:{}", file.path),
        })
        .collect()
}

#[test]
fn groups_files_under_directories_and_hides_collapsed_children() {
    let files = vec![file("src/gui/workspace.rs"), file("src/main.rs"), file("README.md")];
    let rows = git_change_rows(&files, &[]);
    assert_eq!(
        labels(&rows),
        vec![
            "d0:src",
            "d1:src/gui",
            "f2:workspace.rs:src/gui/workspace.rs",
            "f1:main.rs:src/main.rs",
            "f0:README.md:README.md",
        ]
    );
    let collapsed = vec!["src".to_string()];
    let collapsed_rows = git_change_rows(&files, &collapsed);
    assert!(collapsed_rows.iter().all(|row| !matches!(
        row,
        GitTreeRow::File { file, .. } if file.path.starts_with("src/")
    )));
    assert!(git_dir_paths(&files).contains(&"src/gui".to_string()));
}

#[test]
fn folders_sort_before_files_and_names_ascend() {
    let files = vec![file("b.txt"), file("z/y.rs"), file("a/c.rs"), file("a/b/d.rs"), file("A.md")];
    assert_eq!(
        labels(&git_change_rows(&files, &[])),
        vec![
            "d0:a",
            "d1:a/b",
            "f2:d.rs:a/b/d.rs",
            "f1:c.rs:a/c.rs",
            "d0:z",
            "f1:y.rs:z/y.rs",
            "f0:A.md:A.md",
            "f0:b.txt:b.txt",
        ]
    );
}

#[test]
fn collapsed_folders_keep_their_own_row() {
    let files = vec![file("src/gui/a.rs"), file("src/b.rs"), file("docs/c.md")];
    let collapsed = vec!["src/gui".to_string()];
    assert_eq!(
        labels(&git_change_rows(&files, &collapsed)),
        vec!["d0:docs", "f1:c.md:docs/c.md", "d0:src", "d1:src/gui", "f1:b.rs:src/b.rs"]
    );
}

#[test]
fn backslashes_and_repeats_share_rows() {
    let mut later = file("src/a.rs");
    later.xy = "A ".into();
    let files = vec![file(r"src\a.rs"), later.clone(), file("//src//b.rs")];
    let rows = git_change_rows(&files, &[]);
    assert_eq!(rows.len(), 3);
    assert_eq!(rows[0], GitTreeRow::Dir { path: "src".into(), depth: 0, name: "src".into() });
    assert_eq!(rows[1], GitTreeRow::File { file: later, depth: 1, name: "a.rs".into() });
    assert!(git_change_rows(&[file("/")], &[]).is_empty());
}

#[test]
fn change_dirs_are_listed_once() {
    let files = vec![file("a/b/c.rs"), file("a/d.rs"), file("e.rs")];
    let mut dirs = git_dir_paths(&files);
    dirs.sort();
    assert_eq!(dirs, vec!["a".to_string(), "a/b".to_string()]);
    assert_eq!(git_path_parts(r"\a//b\c"), vec!["a", "b", "c"]);
}

#[test]
fn stage_actions_follow_the_status_letters() {
    assert_eq!(stage_flags(" M"), (false, true));
    assert_eq!(stage_flags("M "), (true, false));
    assert_eq!(stage_flags("MM"), (true, true));
    assert_eq!(stage_flags("??"), (false, true));
    assert_eq!(stage_flags(""), (false, false));
    assert_eq!(status_label(""), "  ");
    assert_eq!(status_label("A "), "A ");
}

#[test]
fn explorer_paths_find_their_changed_file() {
    let files = vec![file("src/a.rs"), file("README.md")];
    let index = GitPathIndex::build("/w", "/elsewhere", &files, false);
    assert_eq!(index.lookup("src/a.rs", false).as_deref(), Some("src/a.rs"));
    assert_eq!(index.lookup("/w/src/a.rs", false).as_deref(), Some("src/a.rs"));
    assert_eq!(index.lookup("/w/src/b.rs", false), None);
    assert_eq!(git_rel_for(&index, "/w", "/e", "/w/README.md", false).as_deref(), Some("README.md"));
    assert_eq!(git_rel_for(&index, "/w", "/e", "/x/README.md", false), None);
    let by_explorer = GitPathIndex::build("", "/e", &files, false);
    assert_eq!(by_explorer.lookup("/e/src/a.rs", false).as_deref(), Some("src/a.rs"));
}

#[test]
fn windows_lookups_ignore_case() {
    let files = vec![file("src/a.rs")];
    let index = GitPathIndex::build(r"C:\w", "", &files, true);
    assert_eq!(index.lookup("SRC/A.RS", true).as_deref(), Some("src/a.rs"));
    assert_eq!(git_rel_for(&index, r"C:\w", "", r"C:\W\SRC\A.RS", true).as_deref(), Some("src/a.rs"));
}

#[test]
fn collapsed_folders_without_changes_are_forgotten() {
    let files = vec![file("a/b/c.rs"), file("d.rs")];
    let mut collapsed = vec!["a/b".to_string(), "gone".to_string(), "a".to_string()];
    retain_present(&mut collapsed, &files);
    assert_eq!(collapsed, vec!["a/b".to_string(), "a".to_string()]);
}
