use std::collections::HashMap;
use fresh_gui_app::explorer::{record_tree_toggle, ExpandedSet};
use fresh_gui_app::explorer::is_placeholder;
use fresh_gui_app::listing::{
    is_dir_entry, prune_expanded, rebase_listing, FsEntry, FsKind, ListingCache, TreeNode,
};

fn entry(name: &str, path: &str, kind: FsKind) -> FsEntry {
    FsEntry { name: name.into(), path: path.into(), kind, size: None, target_kind: None }
}

fn sample_cache() -> ListingCache {
    let mut cache = ListingCache::new();
    cache.insert(
        "/proj".into(),
        vec![
            entry("src", "/proj/src", FsKind::Dir),
            entry("docs", "/proj/docs", FsKind::Dir),
            FsEntry { size: Some(12), ..entry("README.md", "/proj/README.md", FsKind::File) },
        ],
    );
    cache.insert("/proj/src".into(), vec![entry("main.rs", "/proj/src/main.rs", FsKind::File)]);
    cache.insert("/proj/docs".into(), vec![entry("guide.md", "/proj/docs/guide.md", FsKind::File)]);
    cache
}

#[test]
fn deleted_folders_leave_the_open_set() {
    let cache = sample_cache();
    let mut expanded = ExpandedSet::new();
    for path in ["/proj/src", "/proj/gone", "/elsewhere/unlisted/child"] {
        record_tree_toggle(&mut expanded, path, true);
    }
    prune_expanded(&mut expanded, &cache);
    assert!(expanded.contains("/proj/src"));
    assert!(!expanded.contains("/proj/gone"));
    assert!(expanded.contains("/elsewhere/unlisted/child"));
}

#[test]
fn listing_through_a_symlink_stays_under_the_link() {
    let child = FsEntry {
        name: "x.rs".into(),
        path: "/real/target/x.rs".into(),
        kind: FsKind::File,
        size: Some(1),
        target_kind: None,
    };
    let (key, entries) = rebase_listing("/proj/dirlink", "/real/target", vec![child.clone()]);
    assert_eq!(key, "/proj/dirlink");
    assert_eq!(entries[0].path, "/proj/dirlink/x.rs");

    let (key, entries) = rebase_listing(r"C:\proj\link", r"C:\real", vec![child.clone()]);
    assert_eq!(key, r"C:\proj\link");
    assert_eq!(entries[0].path, r"C:\proj\link\x.rs");

    let (key, entries) = rebase_listing("/real/target", "/real/target", vec![child.clone()]);
    assert_eq!(key, "/real/target");
    assert_eq!(entries[0].path, child.path);
    let (key, _) = rebase_listing("", "/root", vec![]);
    assert_eq!(key, "/root");
    let (_, entries) = rebase_listing("/proj/link///", "/t", vec![child.clone()]);
    assert_eq!(entries[0].path, "/proj/link/x.rs");
}

#[test]
fn listed_empty_directory_is_not_a_tree_folder() {
    let mut cache = ListingCache::new();
    cache.insert("/proj".into(), vec![entry("empty", "/proj/empty", FsKind::Dir)]);
    cache.insert("/proj/empty".into(), Vec::new());
    let items = cache.build_explorer_tree("/proj", &ExpandedSet::new(), "");
    let empty = find(&items, "/proj/empty").unwrap();
    assert!(!empty.is_folder());
    assert!(empty.children.is_empty());
    let kinds: HashMap<String, FsKind> = cache.entry_kinds().into_iter().collect();
    assert_eq!(kinds.get("/proj/empty"), Some(&FsKind::Dir));
    assert_eq!(cache.get("/proj/empty").map(|v| v.len()), Some(0));
}

#[test]
fn folder_symlinks_expand_and_other_links_do_not() {
    let link = |name: &str, target: Option<FsKind>| FsEntry {
        name: name.into(),
        path: format!("/proj/{name}"),
        kind: FsKind::Symlink,
        size: None,
        target_kind: target,
    };
    let entries = vec![link("dirlink", Some(FsKind::Dir)), link("filelink", Some(FsKind::File)), link("escape", None)];
    assert!(is_dir_entry(&entries[0]));
    assert!(!is_dir_entry(&entries[1]));
    assert!(!is_dir_entry(&entries[2]));
    let mut cache = ListingCache::new();
    cache.insert("/proj".to_string(), entries);
    let kinds: HashMap<String, FsKind> = cache.entry_kinds().into_iter().collect();
    assert_eq!(kinds["/proj/dirlink"], FsKind::Dir);
    assert_eq!(kinds["/proj/escape"], FsKind::Symlink);
    assert_eq!(kinds["/proj/filelink"], FsKind::Symlink);
}

#[test]
fn replacing_a_listing_keeps_one_entry_per_directory() {
    let mut cache = sample_cache();
    cache.insert("/proj/src".into(), vec![entry("lib.rs", "/proj/src/lib.rs", FsKind::File)]);
    let src = cache.get("/proj/src").unwrap();
    assert_eq!(src.len(), 1);
    assert_eq!(src[0].name, "lib.rs");
    assert!(cache.get("/nowhere").is_none());
}

#[test]
fn goto_lists_matching_files_in_order_and_caps_the_count() {
    let cache = sample_cache();
    // Folders never match; an empty query lists every file, sorted.
    assert_eq!(
        cache.goto_matches("  "),
        vec!["/proj/README.md", "/proj/docs/guide.md", "/proj/src/main.rs"]
    );
    // Case is ignored on both sides; the name or the path may match.
    assert_eq!(cache.goto_matches(" MAIN "), vec!["/proj/src/main.rs"]);
    assert_eq!(cache.goto_matches("docs"), vec!["/proj/docs/guide.md"]);
    assert!(cache.goto_matches("nothing-here").is_empty());

    let mut big = ListingCache::new();
    let files: Vec<FsEntry> = (0..20)
        .rev()
        .map(|i| entry(&format!("f{i:02}.txt"), &format!("/big/f{i:02}.txt"), FsKind::File))
        .collect();
    big.insert("/big".into(), files);
    let got = big.goto_matches("F");
    assert_eq!(got.len(), 12);
    assert_eq!(got[0], "/big/f00.txt");
    assert_eq!(got[11], "/big/f11.txt");
}

fn find<'a>(items: &'a [TreeNode], id: &str) -> Option<&'a TreeNode> {
    for item in items {
        if item.id == id {
            return Some(item);
        }
        if let Some(found) = find(&item.children, id) {
            return Some(found);
        }
    }
    None
}

#[test]
fn cached_directory_stays_collapsed_until_toggled() {
    let cache = sample_cache();
    let items = cache.build_explorer_tree("/proj", &ExpandedSet::new(), "");
    let src = find(&items, "/proj/src").unwrap();
    assert!(!src.is_expanded());
    assert!(src.is_folder());
    assert_eq!(src.children[0].id, "/proj/src/main.rs");
    assert!(!find(&items, "/proj/docs").unwrap().is_expanded());
}

#[test]
fn filter_only_matches_direct_children_and_keeps_nested_rows() {
    let cache = sample_cache();
    let mut expanded = ExpandedSet::new();
    record_tree_toggle(&mut expanded, "/proj/src", true);
    let items = cache.build_explorer_tree("/proj", &expanded, "SRC");
    assert_eq!(items.len(), 1);
    assert_eq!(items[0].id, "/proj/src");
    assert!(find(&items, "/proj/src/main.rs").is_some());
    assert!(cache.build_explorer_tree("/proj", &expanded, "main").is_empty());
    assert_eq!(
        cache.build_explorer_tree("/proj", &expanded, "").len(),
        cache.get("/proj").unwrap().len()
    );
}

#[test]
fn unlisted_directory_is_still_a_folder() {
    let mut cache = ListingCache::new();
    cache.insert("/proj".into(), vec![entry("src", "/proj/src", FsKind::Dir)]);
    let mut expanded = ExpandedSet::new();
    record_tree_toggle(&mut expanded, "/proj/src", true);
    let items = cache.build_explorer_tree("/proj", &expanded, "");
    let src = find(&items, "/proj/src").unwrap();
    assert!(src.is_expanded());
    assert!(src.is_folder());
    assert!(is_placeholder(&src.children[0].id));
    assert_eq!(src.children[0].label, "\u{2026}");
}

#[test]
fn explorer_tree_rows_follow_the_listing() {
    let cache = sample_cache();
    // An unlisted root shows nothing.
    assert!(cache.build_explorer_tree("/elsewhere", &ExpandedSet::new(), "").is_empty());
    // Rows keep the listing order and labels.
    let items = sample_cache().build_explorer_tree("/proj", &ExpandedSet::new(), "");
    let labels: Vec<&str> = items.iter().map(|n| n.label.as_str()).collect();
    assert_eq!(labels, vec!["src", "docs", "README.md"]);
    assert!(!find(&items, "/proj/README.md").unwrap().is_folder());
}
