//! Explorer glyphs: which bundled Lucide file or folder icon a row shows,
//! and its tint, so a folder, a Rust file and a markdown file look apart.
//! Tints are hue in degrees and saturation and lightness in percent.

use vstd::prelude::*;

use crate::listing::FsKind;
use crate::text::{chars_of, eq_chars, find, find_char, lower_ascii, lower_chars, rfind, rfind_char, slice_vec, starts_with, starts_with_chars};

verus! {

/// The bundled icons the explorer uses.
#[derive(Clone, Copy, Debug, PartialEq, Eq, Structural)]
pub enum GlyphIcon {
    Folder,
    FolderOpen,
    FolderGit,
    FolderCode,
    FolderCog,
    File,
    FileCode,
    FileBraces,
    FileCog,
    FileText,
    FileImage,
    FileTerminal,
    FileArchive,
    FileLock,
    FileDiff,
    FileSpreadsheet,
    FileSymlink,
}

/// One explorer glyph: an icon and its tint, tuned for a dark sidebar.
#[derive(Clone, Copy, Debug, PartialEq, Eq, Structural)]
pub struct ExplorerGlyph {
    pub icon: GlyphIcon,
    /// Hue in degrees (0–360).
    pub hue: u16,
    /// Saturation in percent.
    pub saturation: u8,
    /// Lightness in percent on a dark sidebar.
    pub lightness: u8,
}

pub open spec fn glyph(icon: GlyphIcon, hue: u16, saturation: u8, lightness: u8) -> ExplorerGlyph {
    ExplorerGlyph { icon, hue, saturation, lightness }
}

fn make_glyph(icon: GlyphIcon, hue: u16, saturation: u8, lightness: u8) -> (g: ExplorerGlyph)
    ensures
        g == glyph(icon, hue, saturation, lightness),
{
    ExplorerGlyph { icon, hue, saturation, lightness }
}

impl ExplorerGlyph {
    /// Lightness in percent for the sidebar's theme. A light sidebar takes
    /// the tint 20 points darker, but no darker than 25%, or grey and pastel
    /// glyphs wash out.
    pub fn lightness_on(&self, dark: bool) -> (l: u8)
        ensures
            dark ==> l == self.lightness,
            !dark ==> l == (if self.lightness >= 45 { self.lightness - 20 } else { 25 }),
    {
        if dark {
            self.lightness
        } else if self.lightness >= 45 {
            self.lightness - 20
        } else {
            25
        }
    }
}

fn matches_literal(v: &Vec<char>, lit: &str) -> (r: bool)
    ensures
        r == (v@ == lit@),
{
    eq_chars(v, &chars_of(lit))
}

/// Glyph of a closed folder, by its lower-cased name.
pub open spec fn folder_kind_glyph(lower: Seq<char>) -> ExplorerGlyph {
    if lower == ".git"@ || lower == ".github"@ || lower == ".gitlab"@ {
        glyph(GlyphIcon::FolderGit, 16, 70, 52)
    } else if lower == "src"@ || lower == "crates"@ || lower == "lib"@ || lower == "include"@ || lower == "app"@ {
        glyph(GlyphIcon::FolderCode, 211, 45, 55)
    } else if lower == "node_modules"@ || lower == "target"@ || lower == "dist"@ || lower == "build"@ || lower == "out"@ || lower == "vendor"@ {
        glyph(GlyphIcon::FolderCog, 210, 12, 58)
    } else {
        glyph(GlyphIcon::Folder, 38, 75, 52)
    }
}

/// Glyph of a folder row. An expanded folder shows the open folder so a
/// click reads as a toggle.
pub open spec fn folder_glyph_spec(name: Seq<char>, expanded: bool) -> ExplorerGlyph {
    if expanded {
        glyph(GlyphIcon::FolderOpen, 40, 80, 58)
    } else {
        folder_kind_glyph(lower_ascii(name))
    }
}

fn folder_glyph(name: &str, expanded: bool) -> (g: ExplorerGlyph)
    ensures
        g == folder_glyph_spec(name@, expanded),
{
    if expanded {
        return make_glyph(GlyphIcon::FolderOpen, 40, 80, 58);
    }
    let lower = lower_chars(&chars_of(name));
    if matches_literal(&lower, ".git") || matches_literal(&lower, ".github") || matches_literal(&lower, ".gitlab") {
        make_glyph(GlyphIcon::FolderGit, 16, 70, 52)
    } else if matches_literal(&lower, "src") || matches_literal(&lower, "crates") || matches_literal(&lower, "lib") || matches_literal(&lower, "include") || matches_literal(&lower, "app") {
        make_glyph(GlyphIcon::FolderCode, 211, 45, 55)
    } else if matches_literal(&lower, "node_modules") || matches_literal(&lower, "target") || matches_literal(&lower, "dist") || matches_literal(&lower, "build") || matches_literal(&lower, "out") || matches_literal(&lower, "vendor") {
        make_glyph(GlyphIcon::FolderCog, 210, 12, 58)
    } else {
        make_glyph(GlyphIcon::Folder, 38, 75, 52)
    }
}

/// The name up to its first dot.
pub open spec fn stem(name: Seq<char>) -> Seq<char> {
    match find(name, '.') {
        Some(i) => name.take(i),
        None => name,
    }
}

/// README, LICENSE and the like, whatever their extension.
pub open spec fn is_prose_name_spec(lower: Seq<char>) -> bool {
    let s = stem(lower);
    s == "readme"@ || s == "license"@ || s == "licence"@ || s == "copying"@ || s == "changelog"@ || s == "authors"@
}

fn is_prose_name(lower: &Vec<char>) -> (r: bool)
    ensures
        r == is_prose_name_spec(lower@),
{
    let s = match find_char(lower, '.') {
        Some(i) => slice_vec(lower, 0, i),
        None => slice_vec(lower, 0, lower.len()),
    };
    proof {
        assert(lower@.subrange(0, lower@.len() as int) =~= lower@);
    }
    matches_literal(&s, "readme") || matches_literal(&s, "license") || matches_literal(&s, "licence") || matches_literal(&s, "copying") || matches_literal(&s, "changelog") || matches_literal(&s, "authors")
}

/// The text after the last dot, when there is a dot and text after it.
pub open spec fn extension_spec(name: Seq<char>) -> Option<Seq<char>> {
    match rfind(name, '.') {
        Some(i) => {
            let ext = name.skip(i + 1);
            if ext.len() == 0 || ext == name {
                None
            } else {
                Some(ext)
            }
        },
        None => None,
    }
}

fn extension(name: &Vec<char>) -> (r: Option<Vec<char>>)
    ensures
        match r {
            Some(ext) => extension_spec(name@) == Some(ext@),
            None => extension_spec(name@) is None,
        },
{
    proof {
        assert(name@.take(name@.len() as int) =~= name@);
    }
    match rfind_char(name, name.len(), '.') {
        Some(i) => {
            let ext = slice_vec(name, i + 1, name.len());
            proof {
                assert(ext@ =~= name@.skip(i + 1));
            }
            if ext.len() == 0 || ext.len() == name.len() {
                None
            } else {
                Some(ext)
            }
        },
        None => None,
    }
}

/// Glyph by extension (lower-cased).
pub open spec fn extension_glyph(ext: Seq<char>) -> ExplorerGlyph {
    if ext == "rs"@ {
        glyph(GlyphIcon::FileCode, 24, 72, 55)
    } else if ext == "py"@ || ext == "pyi"@ {
        glyph(GlyphIcon::FileCode, 207, 70, 55)
    } else if ext == "go"@ {
        glyph(GlyphIcon::FileCode, 187, 65, 48)
    } else if ext == "js"@ || ext == "jsx"@ || ext == "mjs"@ || ext == "cjs"@ {
        glyph(GlyphIcon::FileCode, 48, 85, 52)
    } else if ext == "ts"@ || ext == "tsx"@ || ext == "mts"@ || ext == "cts"@ {
        glyph(GlyphIcon::FileCode, 211, 75, 56)
    } else if ext == "html"@ || ext == "htm"@ || ext == "vue"@ || ext == "svelte"@ {
        glyph(GlyphIcon::FileCode, 18, 75, 52)
    } else if ext == "css"@ || ext == "scss"@ || ext == "sass"@ || ext == "less"@ {
        glyph(GlyphIcon::FileCode, 200, 70, 55)
    } else if ext == "c"@ || ext == "h"@ || ext == "cpp"@ || ext == "cc"@ || ext == "cxx"@ || ext == "hpp"@ || ext == "hh"@ || ext == "java"@ || ext == "kt"@ || ext == "kts"@ || ext == "swift"@ || ext == "rb"@ || ext == "php"@ || ext == "cs"@ || ext == "scala"@ || ext == "lua"@ || ext == "zig"@ || ext == "dart"@ || ext == "xml"@ {
        glyph(GlyphIcon::FileCode, 211, 55, 55)
    } else if ext == "json"@ || ext == "jsonc"@ || ext == "json5"@ {
        glyph(GlyphIcon::FileBraces, 45, 75, 52)
    } else if ext == "toml"@ || ext == "yaml"@ || ext == "yml"@ || ext == "ini"@ || ext == "cfg"@ || ext == "conf"@ || ext == "properties"@ {
        glyph(GlyphIcon::FileCog, 210, 15, 62)
    } else if ext == "md"@ || ext == "markdown"@ || ext == "txt"@ || ext == "rst"@ || ext == "adoc"@ || ext == "org"@ {
        glyph(GlyphIcon::FileText, 210, 25, 62)
    } else if ext == "png"@ || ext == "jpg"@ || ext == "jpeg"@ || ext == "gif"@ || ext == "webp"@ || ext == "svg"@ || ext == "ico"@ || ext == "bmp"@ || ext == "avif"@ {
        glyph(GlyphIcon::FileImage, 280, 55, 62)
    } else if ext == "sh"@ || ext == "bash"@ || ext == "zsh"@ || ext == "fish"@ || ext == "ps1"@ || ext == "bat"@ || ext == "cmd"@ {
        glyph(GlyphIcon::FileTerminal, 142, 55, 45)
    } else if ext == "zip"@ || ext == "gz"@ || ext == "tgz"@ || ext == "tar"@ || ext == "bz2"@ || ext == "xz"@ || ext == "7z"@ || ext == "rar"@ || ext == "jar"@ || ext == "war"@ {
        glyph(GlyphIcon::FileArchive, 28, 45, 50)
    } else if ext == "lock"@ {
        glyph(GlyphIcon::FileLock, 45, 60, 50)
    } else if ext == "diff"@ || ext == "patch"@ {
        glyph(GlyphIcon::FileDiff, 95, 40, 48)
    } else if ext == "csv"@ || ext == "tsv"@ || ext == "xls"@ || ext == "xlsx"@ {
        glyph(GlyphIcon::FileSpreadsheet, 142, 45, 42)
    } else {
        glyph(GlyphIcon::File, 220, 8, 62)
    }
}

fn glyph_for_extension(ext: &Vec<char>) -> (g: ExplorerGlyph)
    ensures
        g == extension_glyph(ext@),
{
    if matches_literal(&ext, "rs") {
        make_glyph(GlyphIcon::FileCode, 24, 72, 55)
    } else if matches_literal(&ext, "py") || matches_literal(&ext, "pyi") {
        make_glyph(GlyphIcon::FileCode, 207, 70, 55)
    } else if matches_literal(&ext, "go") {
        make_glyph(GlyphIcon::FileCode, 187, 65, 48)
    } else if matches_literal(&ext, "js") || matches_literal(&ext, "jsx") || matches_literal(&ext, "mjs") || matches_literal(&ext, "cjs") {
        make_glyph(GlyphIcon::FileCode, 48, 85, 52)
    } else if matches_literal(&ext, "ts") || matches_literal(&ext, "tsx") || matches_literal(&ext, "mts") || matches_literal(&ext, "cts") {
        make_glyph(GlyphIcon::FileCode, 211, 75, 56)
    } else if matches_literal(&ext, "html") || matches_literal(&ext, "htm") || matches_literal(&ext, "vue") || matches_literal(&ext, "svelte") {
        make_glyph(GlyphIcon::FileCode, 18, 75, 52)
    } else if matches_literal(&ext, "css") || matches_literal(&ext, "scss") || matches_literal(&ext, "sass") || matches_literal(&ext, "less") {
        make_glyph(GlyphIcon::FileCode, 200, 70, 55)
    } else if matches_literal(&ext, "c") || matches_literal(&ext, "h") || matches_literal(&ext, "cpp") || matches_literal(&ext, "cc") || matches_literal(&ext, "cxx") || matches_literal(&ext, "hpp") || matches_literal(&ext, "hh") || matches_literal(&ext, "java") || matches_literal(&ext, "kt") || matches_literal(&ext, "kts") || matches_literal(&ext, "swift") || matches_literal(&ext, "rb") || matches_literal(&ext, "php") || matches_literal(&ext, "cs") || matches_literal(&ext, "scala") || matches_literal(&ext, "lua") || matches_literal(&ext, "zig") || matches_literal(&ext, "dart") || matches_literal(&ext, "xml") {
        make_glyph(GlyphIcon::FileCode, 211, 55, 55)
    } else if matches_literal(&ext, "json") || matches_literal(&ext, "jsonc") || matches_literal(&ext, "json5") {
        make_glyph(GlyphIcon::FileBraces, 45, 75, 52)
    } else if matches_literal(&ext, "toml") || matches_literal(&ext, "yaml") || matches_literal(&ext, "yml") || matches_literal(&ext, "ini") || matches_literal(&ext, "cfg") || matches_literal(&ext, "conf") || matches_literal(&ext, "properties") {
        make_glyph(GlyphIcon::FileCog, 210, 15, 62)
    } else if matches_literal(&ext, "md") || matches_literal(&ext, "markdown") || matches_literal(&ext, "txt") || matches_literal(&ext, "rst") || matches_literal(&ext, "adoc") || matches_literal(&ext, "org") {
        make_glyph(GlyphIcon::FileText, 210, 25, 62)
    } else if matches_literal(&ext, "png") || matches_literal(&ext, "jpg") || matches_literal(&ext, "jpeg") || matches_literal(&ext, "gif") || matches_literal(&ext, "webp") || matches_literal(&ext, "svg") || matches_literal(&ext, "ico") || matches_literal(&ext, "bmp") || matches_literal(&ext, "avif") {
        make_glyph(GlyphIcon::FileImage, 280, 55, 62)
    } else if matches_literal(&ext, "sh") || matches_literal(&ext, "bash") || matches_literal(&ext, "zsh") || matches_literal(&ext, "fish") || matches_literal(&ext, "ps1") || matches_literal(&ext, "bat") || matches_literal(&ext, "cmd") {
        make_glyph(GlyphIcon::FileTerminal, 142, 55, 45)
    } else if matches_literal(&ext, "zip") || matches_literal(&ext, "gz") || matches_literal(&ext, "tgz") || matches_literal(&ext, "tar") || matches_literal(&ext, "bz2") || matches_literal(&ext, "xz") || matches_literal(&ext, "7z") || matches_literal(&ext, "rar") || matches_literal(&ext, "jar") || matches_literal(&ext, "war") {
        make_glyph(GlyphIcon::FileArchive, 28, 45, 50)
    } else if matches_literal(&ext, "lock") {
        make_glyph(GlyphIcon::FileLock, 45, 60, 50)
    } else if matches_literal(&ext, "diff") || matches_literal(&ext, "patch") {
        make_glyph(GlyphIcon::FileDiff, 95, 40, 48)
    } else if matches_literal(&ext, "csv") || matches_literal(&ext, "tsv") || matches_literal(&ext, "xls") || matches_literal(&ext, "xlsx") {
        make_glyph(GlyphIcon::FileSpreadsheet, 142, 45, 42)
    } else {
        make_glyph(GlyphIcon::File, 220, 8, 62)
    }
}

/// Glyph of a file row, by its lower-cased name: build files, VCS and
/// package manifests first, then prose names, then the extension.
pub open spec fn file_kind_glyph(lower: Seq<char>) -> ExplorerGlyph {
    if lower == "dockerfile"@ || lower == "containerfile"@ || lower == "makefile"@ || lower == "gnumakefile"@ || lower == "justfile"@ || lower == "rakefile"@ || starts_with(lower, "dockerfile."@) {
        glyph(GlyphIcon::FileTerminal, 142, 55, 45)
    } else if lower == ".gitignore"@ || lower == ".gitattributes"@ || lower == ".gitmodules"@ || lower == ".editorconfig"@ {
        glyph(GlyphIcon::FileDiff, 95, 40, 48)
    } else if lower == "cargo.toml"@ || lower == "package.json"@ || lower == "pyproject.toml"@ || lower == "composer.json"@ || lower == "go.mod"@ {
        glyph(GlyphIcon::FileCog, 210, 15, 62)
    } else if is_prose_name_spec(lower) {
        glyph(GlyphIcon::FileText, 210, 25, 62)
    } else {
        match extension_spec(lower) {
            Some(ext) => extension_glyph(ext),
            None => glyph(GlyphIcon::File, 220, 8, 62),
        }
    }
}

fn file_glyph(name: &str) -> (g: ExplorerGlyph)
    ensures
        g == file_kind_glyph(lower_ascii(name@)),
{
    let lower = lower_chars(&chars_of(name));
    if matches_literal(&lower, "dockerfile") || matches_literal(&lower, "containerfile") || matches_literal(&lower, "makefile") || matches_literal(&lower, "gnumakefile") || matches_literal(&lower, "justfile") || matches_literal(&lower, "rakefile") || starts_with_chars(&lower, &chars_of("dockerfile.")) {
        make_glyph(GlyphIcon::FileTerminal, 142, 55, 45)
    } else if matches_literal(&lower, ".gitignore") || matches_literal(&lower, ".gitattributes") || matches_literal(&lower, ".gitmodules") || matches_literal(&lower, ".editorconfig") {
        make_glyph(GlyphIcon::FileDiff, 95, 40, 48)
    } else if matches_literal(&lower, "cargo.toml") || matches_literal(&lower, "package.json") || matches_literal(&lower, "pyproject.toml") || matches_literal(&lower, "composer.json") || matches_literal(&lower, "go.mod") {
        make_glyph(GlyphIcon::FileCog, 210, 15, 62)
    } else if is_prose_name(&lower) {
        make_glyph(GlyphIcon::FileText, 210, 25, 62)
    } else {
        match extension(&lower) {
            Some(ext) => glyph_for_extension(&ext),
            None => make_glyph(GlyphIcon::File, 220, 8, 62),
        }
    }
}

/// The glyph of an explorer row named `name` (one path segment).
pub open spec fn explorer_glyph_spec(name: Seq<char>, kind: FsKind, expanded: bool) -> ExplorerGlyph {
    match kind {
        FsKind::Dir => folder_glyph_spec(name, expanded),
        FsKind::Symlink => glyph(GlyphIcon::FileSymlink, 200, 35, 62),
        FsKind::File | FsKind::Other => file_kind_glyph(lower_ascii(name)),
    }
}

/// Icon and tint for the row `name` of kind `kind`.
pub fn explorer_glyph(name: &str, kind: FsKind, expanded: bool) -> (g: ExplorerGlyph)
    ensures
        g == explorer_glyph_spec(name@, kind, expanded),
{
    match kind {
        FsKind::Dir => folder_glyph(name, expanded),
        FsKind::Symlink => make_glyph(GlyphIcon::FileSymlink, 200, 35, 62),
        FsKind::File | FsKind::Other => file_glyph(name),
    }
}

} // verus!
