use fresh_gui_app::file_icons::{explorer_glyph, ExplorerGlyph, GlyphIcon};
use fresh_gui_app::listing::FsKind;

#[test]
fn files_use_distinct_glyphs() {
    assert_eq!(explorer_glyph("main.rs", FsKind::File, false).icon, GlyphIcon::FileCode);
    assert_eq!(explorer_glyph("main.rs", FsKind::File, false).hue, 24);
    assert_eq!(explorer_glyph("pkg.json", FsKind::File, false).icon, GlyphIcon::FileBraces);
    assert_eq!(explorer_glyph("notes.md", FsKind::File, false).icon, GlyphIcon::FileText);
    assert_eq!(explorer_glyph("pic.PNG", FsKind::File, false).icon, GlyphIcon::FileImage);
    assert_eq!(explorer_glyph("run.sh", FsKind::File, false).icon, GlyphIcon::FileTerminal);
    assert_eq!(explorer_glyph("Cargo.toml", FsKind::File, false).icon, GlyphIcon::FileCog);
    assert_eq!(explorer_glyph("mystery.xyz", FsKind::File, false).icon, GlyphIcon::File);
}

#[test]
fn folders_stay_folders_and_open_when_expanded() {
    let closed = explorer_glyph("docs", FsKind::Dir, false);
    let open = explorer_glyph("docs", FsKind::Dir, true);
    assert_eq!(closed.icon, GlyphIcon::Folder);
    assert_eq!(open.icon, GlyphIcon::FolderOpen);
    assert_ne!(closed.icon, explorer_glyph("docs.md", FsKind::File, false).icon);
    assert_eq!(explorer_glyph(".git", FsKind::Dir, false).icon, GlyphIcon::FolderGit);
    assert_eq!(explorer_glyph("src", FsKind::Dir, false).icon, GlyphIcon::FolderCode);
    assert_eq!(explorer_glyph("src", FsKind::Dir, true).icon, GlyphIcon::FolderOpen);
}

#[test]
fn special_names_beat_the_extension() {
    assert_eq!(explorer_glyph("Dockerfile.dev", FsKind::File, false).icon, GlyphIcon::FileTerminal);
    assert_eq!(explorer_glyph("Makefile", FsKind::File, false).icon, GlyphIcon::FileTerminal);
    assert_eq!(explorer_glyph(".gitignore", FsKind::File, false).icon, GlyphIcon::FileDiff);
    assert_eq!(explorer_glyph("README.rs", FsKind::File, false).icon, GlyphIcon::FileText);
    assert_eq!(explorer_glyph("LICENSE", FsKind::File, false).icon, GlyphIcon::FileText);
    assert_eq!(explorer_glyph("archive.", FsKind::File, false).icon, GlyphIcon::File);
    assert_eq!(explorer_glyph("Cargo.lock", FsKind::File, false).icon, GlyphIcon::FileLock);
    assert_eq!(explorer_glyph("sock", FsKind::Other, false).icon, GlyphIcon::File);
    assert_eq!(
        explorer_glyph("link", FsKind::Symlink, true),
        ExplorerGlyph { icon: GlyphIcon::FileSymlink, hue: 200, saturation: 35, lightness: 62 }
    );
    assert_eq!(explorer_glyph("node_modules", FsKind::Dir, false).icon, GlyphIcon::FolderCog);
}

#[test]
fn light_sidebars_darken_tints_with_a_floor() {
    let rust = explorer_glyph("main.rs", FsKind::File, false);
    assert_eq!(rust.lightness_on(true), 55);
    assert_eq!(rust.lightness_on(false), 35);
    let shell = explorer_glyph("run.sh", FsKind::File, false);
    assert_eq!(shell.lightness_on(false), 25);
    let ts = explorer_glyph("app.ts", FsKind::File, false);
    assert_ne!(rust.hue, ts.hue);
}
