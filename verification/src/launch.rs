//! The `fresh-gui` / `fresh-gui /path` / `user@host` dispatch and the
//! decisions around the per-user daemon: its arguments, its file names and
//! whether a running session is reused.
//!
//! Facts that only the disk, the environment or a child process can give
//! (whether a path exists, what `status --json` printed) are arguments here.

use vstd::prelude::*;
use vstd::string::*;

use crate::strs::str_eq;
use crate::text::{
    chars_of, concat, contains_char, is_ascii_alpha, is_ascii_digit, rfind, starts_with, string_of, trim,
    trim_str,
};

verus! {

/// One saved SSH target, enough to tell a name from a destination.
pub struct KnownRemote<'a> {
    pub name: &'a str,
    pub destination: &'a str,
}

/// Where `fresh-gui [TARGET]` should go.
#[derive(Debug, Clone, PartialEq, Eq)]
pub enum LaunchTarget {
    /// Ensure the local daemon and open the window. `root` is the project directory.
    Local { root: Option<String> },
    /// `remote connect` for a target already in `remotes.json`.
    SavedRemote { name: String, root_override: Option<String> },
    /// SSH destination that is not saved. Not written to `remotes.json`.
    AdHocRemote { destination: String, root: Option<String> },
}

/// [`LaunchTarget`] with its strings as character sequences.
pub enum LaunchView {
    Local(Option<Seq<char>>),
    SavedRemote(Seq<char>, Option<Seq<char>>),
    AdHocRemote(Seq<char>, Option<Seq<char>>),
}

impl View for LaunchTarget {
    type V = LaunchView;

    open spec fn view(&self) -> LaunchView {
        match self {
            LaunchTarget::Local { root } => LaunchView::Local(root.deep_view()),
            LaunchTarget::SavedRemote { name, root_override } => LaunchView::SavedRemote(
                name@,
                root_override.deep_view(),
            ),
            LaunchTarget::AdHocRemote { destination, root } => LaunchView::AdHocRemote(
                destination@,
                root.deep_view(),
            ),
        }
    }
}

/// Why a launch target was refused.
#[derive(Debug, Clone, PartialEq, Eq)]
pub enum LaunchError {
    /// A project path was given both as the argument and as `--root`.
    RootGivenTwice,
    /// The argument looks like a path, but nothing exists there.
    MissingPath(String),
    /// A bare word that is neither a path nor a saved remote.
    UnknownTarget(String),
    /// A `user@host` destination the SSH rules refuse, with their reason.
    BadDestination(String),
}

pub enum LaunchErrorView {
    RootGivenTwice,
    MissingPath(Seq<char>),
    UnknownTarget(Seq<char>),
    BadDestination(Seq<char>),
}

impl View for LaunchError {
    type V = LaunchErrorView;

    open spec fn view(&self) -> LaunchErrorView {
        match self {
            LaunchError::RootGivenTwice => LaunchErrorView::RootGivenTwice,
            LaunchError::MissingPath(p) => LaunchErrorView::MissingPath(p@),
            LaunchError::UnknownTarget(w) => LaunchErrorView::UnknownTarget(w@),
            LaunchError::BadDestination(e) => LaunchErrorView::BadDestination(e@),
        }
    }
}

/// The message shown for a refused target.
pub open spec fn launch_error_message(e: LaunchErrorView) -> Seq<char> {
    match e {
        LaunchErrorView::RootGivenTwice => "pass the project directory either as the argument or as --root"@,
        LaunchErrorView::MissingPath(p) => "project path '"@ + p + "' does not exist"@,
        LaunchErrorView::UnknownTarget(w) => "'"@ + w + unknown_target_help(),
        LaunchErrorView::BadDestination(e) => e,
    }
}

pub open spec fn unknown_target_help() -> Seq<char> {
    "' is not a project path or a saved remote.\nOpen a local directory: fresh-gui /path/to/project\nConnect over SSH: fresh-gui user@host\nOr save one: fresh-gui remote add <name> user@host"@
}

pub fn join3(a: &str, b: &str, c: &str) -> (r: String)
    ensures
        r@ == a@ + b@ + c@,
{
    let ab = concat(&chars_of(a), &chars_of(b));
    string_of(&concat(&ab, &chars_of(c)))
}

impl LaunchError {
    /// What the command prints for this error.
    pub fn message(&self) -> (r: String)
        ensures
            r@ == launch_error_message(self@),
    {
        match self {
            LaunchError::RootGivenTwice => string_of(
                &chars_of("pass the project directory either as the argument or as --root"),
            ),
            LaunchError::MissingPath(p) => join3("project path '", p.as_str(), "' does not exist"),
            LaunchError::UnknownTarget(w) => join3(
                "'",
                w.as_str(),
                "' is not a project path or a saved remote.\nOpen a local directory: fresh-gui /path/to/project\nConnect over SSH: fresh-gui user@host\nOr save one: fresh-gui remote add <name> user@host",
            ),
            LaunchError::BadDestination(e) => e.clone(),
        }
    }
}

/// A trimmed argument, or nothing when it is absent or blank.
pub open spec fn nonblank(o: Option<Seq<char>>) -> Option<Seq<char>> {
    match o {
        Some(s) => if trim(s).len() > 0 {
            Some(trim(s))
        } else {
            None
        },
        None => None,
    }
}

pub open spec fn opt_str(o: Option<&str>) -> Option<Seq<char>> {
    match o {
        Some(s) => Some(s@),
        None => None,
    }
}

/// The trimmed target, or `None` when it is absent or blank. This is the
/// text whose existence on disk [`classify_launch`] asks about.
pub fn launch_target_text(target: Option<&str>) -> (r: Option<String>)
    ensures
        r.deep_view() == nonblank(opt_str(target)),
{
    match target {
        Some(t) => {
            let v = trim_str(t);
            if v.len() > 0 {
                Some(string_of(&v))
            } else {
                None
            }
        },
        None => None,
    }
}

/// The field of a saved remote that a lookup compares.
pub open spec fn remote_key(r: KnownRemote, by_name: bool) -> Seq<char> {
    if by_name {
        r.name@
    } else {
        r.destination@
    }
}

/// First saved remote whose name (`by_name`) or destination equals `raw`.
pub open spec fn first_remote(saved: Seq<KnownRemote>, raw: Seq<char>, by_name: bool) -> Option<
    int,
>
    decreases saved.len(),
{
    if saved.len() == 0 {
        None
    } else if remote_key(saved[0], by_name) == raw {
        Some(0)
    } else {
        match first_remote(saved.drop_first(), raw, by_name) {
            Some(i) => Some(i + 1),
            None => None,
        }
    }
}

pub open spec fn first_remote_facts(saved: Seq<KnownRemote>, raw: Seq<char>, by_name: bool) -> bool {
    match first_remote(saved, raw, by_name) {
        Some(i) => 0 <= i < saved.len() && remote_key(saved[i], by_name) == raw && forall|j: int|
            0 <= j < i ==> #[trigger] remote_key(saved[j], by_name) != raw,
        None => forall|j: int| 0 <= j < saved.len() ==> #[trigger] remote_key(saved[j], by_name) != raw,
    }
}

proof fn lemma_first_remote(saved: Seq<KnownRemote>, raw: Seq<char>, by_name: bool)
    ensures
        first_remote_facts(saved, raw, by_name),
    decreases saved.len(),
{
    if saved.len() > 0 {
        let rest = saved.drop_first();
        lemma_first_remote(rest, raw, by_name);
        assert forall|j: int| 1 <= j < saved.len() implies #[trigger] remote_key(saved[j], by_name)
            == remote_key(rest[j - 1], by_name) by {
            assert(saved[j] == rest[j - 1]);
        }
        if remote_key(saved[0], by_name) != raw {
            match first_remote(rest, raw, by_name) {
                Some(i) => {
                    assert forall|j: int| 0 <= j < i + 1 implies #[trigger] remote_key(
                        saved[j],
                        by_name,
                    ) != raw by {
                        if j > 0 {
                            assert(remote_key(saved[j], by_name) == remote_key(rest[j - 1], by_name));
                        }
                    }
                    assert(remote_key(saved[i + 1], by_name) == remote_key(rest[i], by_name));
                },
                None => {
                    assert forall|j: int| 0 <= j < saved.len() implies #[trigger] remote_key(
                        saved[j],
                        by_name,
                    ) != raw by {
                        if j > 0 {
                            assert(remote_key(saved[j], by_name) == remote_key(rest[j - 1], by_name));
                        }
                    }
                },
            }
        }
    }
}

fn find_remote(saved: &[KnownRemote], raw: &str, by_name: bool) -> (r: Option<usize>)
    ensures
        match r {
            Some(i) => i < saved@.len() && first_remote(saved@, raw@, by_name) == Some(i as int),
            None => first_remote(saved@, raw@, by_name) is None,
        },
{
    proof {
        lemma_first_remote(saved@, raw@, by_name);
    }
    let mut i: usize = 0;
    while i < saved.len()
        invariant
            i <= saved@.len(),
            forall|j: int| 0 <= j < i ==> #[trigger] remote_key(saved@[j], by_name) != raw@,
            first_remote_facts(saved@, raw@, by_name),
        decreases saved.len() - i,
    {
        let remote = &saved[i];
        let hit = if by_name {
            str_eq(remote.name, raw)
        } else {
            str_eq(remote.destination, raw)
        };
        proof {
            assert(hit == (remote_key(saved@[i as int], by_name) == raw@));
        }
        if hit {
            return Some(i);
        }
        i += 1;
    }
    None
}

pub open spec fn has_path_separator_spec(v: Seq<char>) -> bool {
    v.contains('/') || v.contains('\\')
}

fn has_path_separator(value: &[char]) -> (r: bool)
    ensures
        r == has_path_separator_spec(value@),
{
    contains_char(value, '/') || contains_char(value, '\\')
}

/// `.`, `..`, or anything that starts with a dot.
pub open spec fn looks_like_relative_spec(v: Seq<char>) -> bool {
    v == "."@ || v == ".."@ || starts_with(v, "."@)
}

fn looks_like_relative(value: &str) -> (r: bool)
    ensures
        r == looks_like_relative_spec(value@),
{
    let v = chars_of(value);
    let r = str_eq(value, ".") || str_eq(value, "..") || (v.len() > 0 && v[0] == '.');
    proof {
        reveal_strlit(".");
        assert("."@ =~= seq!['.']);
        if v@.len() > 0 {
            assert(value@.take(1) =~= seq![value@[0]]);
            if value@[0] == '.' {
                assert(value@.take(1) =~= "."@);
            } else {
                assert(value@.take(1)[0] != "."@[0]);
            }
            assert(starts_with(value@, "."@) == (value@[0] == '.'));
        }
    }
    r
}

/// A saved remote named `name`, with the root override.
pub open spec fn saved_remote(name: Seq<char>, root: Option<Seq<char>>) -> Result<
    LaunchView,
    LaunchErrorView,
> {
    Ok(LaunchView::SavedRemote(name, root))
}

/// `user@host`: a saved destination, then a saved name, else ad hoc.
pub open spec fn classify_ssh_spec(
    raw: Seq<char>,
    root: Option<Seq<char>>,
    saved: Seq<KnownRemote>,
    destination_check: Result<(), Seq<char>>,
) -> Result<LaunchView, LaunchErrorView> {
    match destination_check {
        Err(why) => Err(LaunchErrorView::BadDestination(why)),
        Ok(_) => match first_remote(saved, raw, false) {
            Some(i) => saved_remote(saved[i].name@, root),
            None => match first_remote(saved, raw, true) {
                Some(i) => saved_remote(saved[i].name@, root),
                None => Ok(LaunchView::AdHocRemote(raw, root)),
            },
        },
    }
}

/// Classification of a positional target.
///
/// `existing_root` is the project root of the target when it names an
/// existing path; `destination_check` is what the SSH destination rules say
/// of a `user@host` target.
pub open spec fn classify_launch_spec(
    target: Option<Seq<char>>,
    root_flag: Option<Seq<char>>,
    saved: Seq<KnownRemote>,
    existing_root: Option<Seq<char>>,
    destination_check: Result<(), Seq<char>>,
) -> Result<LaunchView, LaunchErrorView> {
    let root = nonblank(root_flag);
    match nonblank(target) {
        None => Ok(LaunchView::Local(root)),
        Some(raw) => if raw.contains('@') {
            classify_ssh_spec(raw, root, saved, destination_check)
        } else if existing_root is Some {
            if root is Some {
                Err(LaunchErrorView::RootGivenTwice)
            } else {
                Ok(LaunchView::Local(existing_root))
            }
        } else if first_remote(saved, raw, true) is Some {
            saved_remote(raw, root)
        } else if first_remote(saved, raw, false) is Some {
            saved_remote(saved[first_remote(saved, raw, false)->0].name@, root)
        } else if has_path_separator_spec(raw) || looks_like_relative_spec(raw) {
            Err(LaunchErrorView::MissingPath(raw))
        } else {
            Err(LaunchErrorView::UnknownTarget(raw))
        },
    }
}

pub open spec fn launch_result_view(r: Result<LaunchTarget, LaunchError>) -> Result<
    LaunchView,
    LaunchErrorView,
> {
    match r {
        Ok(t) => Ok(t@),
        Err(e) => Err(e@),
    }
}

pub open spec fn check_view(c: Result<(), String>) -> Result<(), Seq<char>> {
    match c {
        Ok(u) => Ok(u),
        Err(e) => Err(e@),
    }
}

fn classify_ssh(
    raw: &str,
    root: Option<String>,
    saved: &[KnownRemote],
    destination_check: Result<(), String>,
) -> (r: Result<LaunchTarget, LaunchError>)
    ensures
        launch_result_view(r) == classify_ssh_spec(
            raw@,
            root.deep_view(),
            saved@,
            check_view(destination_check),
        ),
{
    if let Err(why) = destination_check {
        return Err(LaunchError::BadDestination(why));
    }
    if let Some(i) = find_remote(saved, raw, false) {
        return Ok(
            LaunchTarget::SavedRemote {
                name: string_of(&chars_of(saved[i].name)),
                root_override: root,
            },
        );
    }
    if let Some(i) = find_remote(saved, raw, true) {
        return Ok(
            LaunchTarget::SavedRemote {
                name: string_of(&chars_of(saved[i].name)),
                root_override: root,
            },
        );
    }
    Ok(LaunchTarget::AdHocRemote { destination: string_of(&chars_of(raw)), root })
}

/// Classify a positional target. An existing path wins over a saved remote
/// of the same name. `user@host` is SSH. A bare word that is neither a path
/// nor a saved remote is an error (it is not treated as an OpenSSH host alias).
///
/// `existing_root` is [`project_root`] of the target when the target (as
/// [`launch_target_text`] gives it) names an existing path, and `None`
/// otherwise; `destination_check` is the SSH destination rules' verdict on
/// that text. Each is read only where the classification needs it.
pub fn classify_launch(
    target: Option<&str>,
    root_flag: Option<&str>,
    saved: &[KnownRemote],
    existing_root: Option<&str>,
    destination_check: Result<(), String>,
) -> (r: Result<LaunchTarget, LaunchError>)
    ensures
        launch_result_view(r) == classify_launch_spec(
            opt_str(target),
            opt_str(root_flag),
            saved@,
            opt_str(existing_root),
            check_view(destination_check),
        ),
{
    let root = launch_target_text(root_flag);
    let raw = match launch_target_text(target) {
        None => {
            return Ok(LaunchTarget::Local { root });
        },
        Some(raw) => raw,
    };
    let raw_chars = chars_of(raw.as_str());
    if contains_char(&raw_chars, '@') {
        return classify_ssh(raw.as_str(), root, saved, destination_check);
    }
    if let Some(project) = existing_root {
        if root.is_some() {
            return Err(LaunchError::RootGivenTwice);
        }
        return Ok(LaunchTarget::Local { root: Some(string_of(&chars_of(project))) });
    }
    if find_remote(saved, raw.as_str(), true).is_some() {
        return Ok(LaunchTarget::SavedRemote { name: raw, root_override: root });
    }
    if let Some(i) = find_remote(saved, raw.as_str(), false) {
        return Ok(
            LaunchTarget::SavedRemote {
                name: string_of(&chars_of(saved[i].name)),
                root_override: root,
            },
        );
    }
    if has_path_separator(&raw_chars) || looks_like_relative(raw.as_str()) {
        return Err(LaunchError::MissingPath(raw));
    }
    Err(LaunchError::UnknownTarget(raw))
}

/// The directory a project argument stands for: a directory itself, else
/// its parent, else `.`.
pub open spec fn project_root_spec(path: Seq<char>, is_dir: bool, parent: Option<Seq<char>>) -> Seq<
    char,
> {
    if is_dir {
        path
    } else {
        match parent {
            Some(p) => if p.len() > 0 {
                p
            } else {
                "."@
            },
            None => "."@,
        }
    }
}

/// One plain path component: letters, digits, `_`, `-` and `.`, not only
/// dots (so neither `.` nor `..`), with no separator, drive colon or
/// other character that a platform reads specially.
pub open spec fn plain_name(s: Seq<char>) -> bool {
    &&& s.len() > 0
    &&& forall|i: int|
        0 <= i < s.len() ==> (is_ascii_alpha(#[trigger] s[i]) || is_ascii_digit(s[i]) || s[i] == '_'
            || s[i] == '-' || s[i] == '.')
    &&& exists|i: int| 0 <= i < s.len() && #[trigger] s[i] != '.'
}

/// The parent of a path made of plain components, `name/name` or
/// `/name/name`, which every platform reads alike: the part before the last
/// `/`. `None` for any other path.
pub open spec fn plain_parent_of(path: Seq<char>) -> Option<Seq<char>> {
    match rfind(path, '/') {
        Some(i) => {
            let head = path.take(i);
            let tail = path.skip(i + 1);
            if plain_name(tail) && (plain_name(head) || (head.len() > 0 && head[0] == '/'
                && plain_name(head.skip(1)))) {
                Some(head)
            } else {
                None
            }
        },
        None => None,
    }
}

/// `Path::parent` of `path`. Where it cuts depends on the platform's
/// separator rules (`\` separates on Windows only), so in general only
/// this is stated: on every platform it is a leading part of `path`
/// (`Path::parent` returns a sub-slice of the path it is given), and for a
/// plain `name/name` or `/name/name` path it is everything before the last
/// `/` (the path without its final component).
#[verifier::external_body]
fn path_parent(path: &str) -> (r: Option<String>)
    ensures
        r matches Some(p) ==> starts_with(path@, p@),
        r is Some || plain_parent_of(path@) is None,
        r is Some && plain_parent_of(path@) is Some ==> r->0@ == plain_parent_of(path@)->0,
{
    match std::path::Path::new(path).parent() {
        Some(parent) => Some(parent.to_string_lossy().into_owned()),
        None => None,
    }
}

/// The project root for `path` given its parent as the platform's path
/// rules compute it; see [`project_root`].
pub fn project_root_with_parent(path: &str, is_dir: bool, parent: Option<&str>) -> (r: String)
    ensures
        r@ == project_root_spec(path@, is_dir, opt_str(parent)),
{
    if is_dir {
        return string_of(&chars_of(path));
    }
    match parent {
        Some(p) => {
            let v = chars_of(p);
            if v.len() > 0 {
                string_of(&v)
            } else {
                proof {
                    reveal_strlit(".");
                }
                ".".to_string()
            }
        },
        None => ".".to_string(),
    }
}

/// Directory the daemon should use. A file argument uses its parent.
/// `is_dir` says whether `path` is a directory on disk.
pub fn project_root(path: &str, is_dir: bool) -> (r: String)
    ensures
        is_dir ==> r@ == path@,
        !is_dir ==> exists|p: Option<Seq<char>>|
            (p matches Some(q) ==> starts_with(path@, q)) && r@ == project_root_spec(path@, false, p),
        !is_dir && plain_parent_of(path@) is Some ==> r@ == plain_parent_of(path@)->0,
{
    if is_dir {
        return string_of(&chars_of(path));
    }
    let parent = path_parent(path);
    match parent {
        Some(p) => {
            let r = project_root_with_parent(path, false, Some(p.as_str()));
            proof {
                let w: Option<Seq<char>> = Some(p@);
                assert(w matches Some(q) ==> starts_with(path@, q));
                assert(r@ == project_root_spec(path@, false, w));
            }
            r
        },
        None => {
            let r = project_root_with_parent(path, false, None);
            proof {
                let w: Option<Seq<char>> = None;
                assert(r@ == project_root_spec(path@, false, w));
            }
            r
        },
    }
}

/// Characters kept in a remote's name; every other one becomes `-`.
pub open spec fn name_char(c: char) -> char {
    if is_ascii_alpha(c) || is_ascii_digit(c) || c == '.' || c == '_' || c == '-' {
        c
    } else {
        '-'
    }
}

pub open spec fn ad_hoc_remote_name_spec(destination: Seq<char>) -> Seq<char> {
    if destination.len() == 0 {
        "remote"@
    } else {
        destination.map_values(|c: char| name_char(c))
    }
}

/// Name stored on an unsaved `user@host` target (the `@` and anything else
/// outside `[A-Za-z0-9._-]` become `-`).
pub fn ad_hoc_remote_name(destination: &str) -> (r: String)
    ensures
        r@ == ad_hoc_remote_name_spec(destination@),
{
    let d = chars_of(destination);
    if d.len() == 0 {
        return "remote".to_string();
    }
    let mut out: Vec<char> = Vec::new();
    let mut i: usize = 0;
    while i < d.len()
        invariant
            i <= d@.len(),
            out@ == d@.take(i as int).map_values(|c: char| name_char(c)),
        decreases d.len() - i,
    {
        let c = d[i];
        let keep = ('a' <= c && c <= 'z') || ('A' <= c && c <= 'Z') || ('0' <= c && c <= '9')
            || c == '.' || c == '_' || c == '-';
        out.push(
            if keep {
                c
            } else {
                '-'
            },
        );
        i += 1;
        proof {
            assert(d@.take(i as int).map_values(|c: char| name_char(c)) =~= d@.take(
                i - 1,
            ).map_values(|c: char| name_char(c)).push(name_char(d@[i - 1])));
        }
    }
    proof {
        assert(d@.take(d@.len() as int) =~= d@);
    }
    string_of(&out)
}

/// Session fields the desktop command needs. Extra daemon JSON keys are ignored.
#[derive(Debug, Clone, PartialEq, Eq)]
pub struct DaemonSession {
    pub ws_url: String,
    pub token: Option<String>,
    pub pid: u32,
    pub root: String,
}

/// Result of attaching to the per-user daemon.
#[derive(Debug, Clone, PartialEq, Eq)]
pub struct EnsuredSession {
    pub ws_url: String,
    pub token: Option<String>,
    pub pid: u32,
    pub started: bool,
    /// Set when a session was already running and the user named a project.
    pub preferred_root: Option<String>,
}

/// The text `parse_session_json` hands to the JSON parser: the trimmed
/// output, or the error for output with nothing in it.
pub fn session_json_text(stdout: &str) -> (r: Result<String, String>)
    ensures
        match r {
            Ok(t) => trim(stdout@).len() > 0 && t@ == trim(stdout@),
            Err(e) => trim(stdout@).len() == 0 && e@ == "daemon did not return session JSON"@,
        },
{
    let t = trim_str(stdout);
    if t.len() == 0 {
        return Err("daemon did not return session JSON".to_string());
    }
    Ok(string_of(&t))
}

/// What `status --json` says of a running session: nothing when the command
/// failed or printed only blanks, else its output.
pub fn status_session_text(success: bool, stdout: &str) -> (r: Option<String>)
    ensures
        r.deep_view() == (if success && trim(stdout@).len() > 0 {
            Some(stdout@)
        } else {
            None
        }),
{
    if !success {
        return None;
    }
    if trim_str(stdout).len() == 0 {
        return None;
    }
    Some(string_of(&chars_of(stdout)))
}

/// The error for a daemon command that exited unsuccessfully; `exit` is the
/// exit status as displayed.
pub fn daemon_failure_message(what: &str, exit: &str, stderr: &str) -> (r: String)
    ensures
        r@ == what@ + " failed (exit "@ + exit@ + (if trim(stderr@).len() == 0 {
            ")"@
        } else {
            "): "@ + trim(stderr@)
        }),
{
    let head = join3(what, " failed (exit ", exit);
    let err = trim_str(stderr);
    if err.len() == 0 {
        let r = join3(head.as_str(), ")", "");
        proof {
            reveal_strlit("");
            assert(r@ =~= what@ + " failed (exit "@ + exit@ + ")"@);
        }
        r
    } else {
        let tail = string_of(&err);
        let r = join3(head.as_str(), "): ", tail.as_str());
        proof {
            assert(r@ =~= what@ + " failed (exit "@ + exit@ + ("): "@ + trim(stderr@)));
        }
        r
    }
}

pub open spec fn daemon_start_args_spec(root: Option<Seq<char>>) -> Seq<Seq<char>> {
    match root {
        Some(r) => seq!["--json"@, "--root"@, r],
        None => seq!["--json"@],
    }
}

/// Args for a quiet start-or-attach. Token stays in the session file, not argv.
pub fn daemon_start_args(root: Option<&str>) -> (r: Vec<String>)
    ensures
        r.deep_view() == daemon_start_args_spec(opt_str(root)),
{
    let mut args: Vec<String> = Vec::new();
    args.push("--json".to_string());
    if let Some(root) = root {
        args.push("--root".to_string());
        args.push(string_of(&chars_of(root)));
    }
    proof {
        assert(args.deep_view() =~= daemon_start_args_spec(opt_str(root)));
    }
    args
}

/// What to do to get a local session.
pub enum SessionStep {
    /// A session is already running: use it.
    Attach(EnsuredSession),
    /// Start the daemon with these arguments, then [`started_session`].
    Start(Vec<String>),
}

/// Start the daemon when this user has no live session. Reuse one when it does.
///
/// `prepared_root` is the absolute project directory the user named;
/// `existing` is what `status --json` reported.
pub fn ensure_local_session(prepared_root: Option<&str>, existing: Option<DaemonSession>) -> (r:
    SessionStep)
    ensures
        match existing {
            Some(s) => match r {
                SessionStep::Attach(e) => e.ws_url@ == s.ws_url@ && e.token.deep_view()
                    == s.token.deep_view() && e.pid == s.pid && !e.started
                    && e.preferred_root.deep_view() == opt_str(prepared_root),
                SessionStep::Start(_) => false,
            },
            None => match r {
                SessionStep::Start(args) => args.deep_view() == daemon_start_args_spec(
                    opt_str(prepared_root),
                ),
                SessionStep::Attach(_) => false,
            },
        },
{
    match existing {
        Some(s) => SessionStep::Attach(
            EnsuredSession {
                ws_url: s.ws_url,
                token: s.token,
                pid: s.pid,
                started: false,
                preferred_root: match prepared_root {
                    Some(p) => Some(string_of(&chars_of(p))),
                    None => None,
                },
            },
        ),
        None => SessionStep::Start(daemon_start_args(prepared_root)),
    }
}

/// The session a fresh daemon start reported.
pub fn started_session(started: DaemonSession) -> (r: EnsuredSession)
    ensures
        r.ws_url@ == started.ws_url@,
        r.token.deep_view() == started.token.deep_view(),
        r.pid == started.pid,
        r.started,
        r.preferred_root is None,
{
    EnsuredSession {
        ws_url: started.ws_url,
        token: started.token,
        pid: started.pid,
        started: true,
        preferred_root: None,
    }
}

/// File name of the headless daemon.
pub fn daemon_file_name(windows: bool) -> (r: &'static str)
    ensures
        r@ == (if windows {
            "fresh-gui-daemon.exe"@
        } else {
            "fresh-gui-daemon"@
        }),
{
    if windows {
        "fresh-gui-daemon.exe"
    } else {
        "fresh-gui-daemon"
    }
}

/// File name of the daemon a `cargo build` puts beside the dev host.
pub fn dev_daemon_file_name(windows: bool) -> (r: &'static str)
    ensures
        r@ == (if windows {
            "fresh-gui.exe"@
        } else {
            "fresh-gui"@
        }),
{
    if windows {
        "fresh-gui.exe"
    } else {
        "fresh-gui"
    }
}

/// Whether the running binary (by file name) is the dev host `fresh-gui-app`.
pub fn is_dev_host(file_name: Option<&str>) -> (r: bool)
    ensures
        r == match file_name {
            Some(n) => n@ == "fresh-gui-app"@ || n@ == "fresh-gui-app.exe"@,
            None => false,
        },
{
    match file_name {
        Some(n) => str_eq(n, "fresh-gui-app") || str_eq(n, "fresh-gui-app.exe"),
        None => false,
    }
}


/// Where to look for the daemon binary, in order.
#[derive(Clone, Copy, Debug, PartialEq, Eq)]
pub enum DaemonProbe {
    /// A file of this name beside the running binary.
    Sibling(&'static str),
    /// A file of this name in each `PATH` directory, in order.
    OnPath(&'static str),
}

pub enum ProbeView {
    Sibling(Seq<char>),
    OnPath(Seq<char>),
}

pub open spec fn probe_view(p: DaemonProbe) -> ProbeView {
    match p {
        DaemonProbe::Sibling(n) => ProbeView::Sibling(n@),
        DaemonProbe::OnPath(n) => ProbeView::OnPath(n@),
    }
}

pub open spec fn daemon_name_spec(windows: bool) -> Seq<char> {
    if windows {
        "fresh-gui-daemon.exe"@
    } else {
        "fresh-gui-daemon"@
    }
}

pub open spec fn dev_daemon_name_spec(windows: bool) -> Seq<char> {
    if windows {
        "fresh-gui.exe"@
    } else {
        "fresh-gui"@
    }
}

/// The daemon search order: the daemon beside the executable; for the dev
/// host only, the `fresh-gui` a `cargo build` puts beside it; then the
/// daemon on `PATH` when there is one. The first usable binary that is not
/// the running executable wins.
pub open spec fn daemon_probes_spec(windows: bool, dev_host: bool, has_path: bool) -> Seq<ProbeView> {
    let first = seq![ProbeView::Sibling(daemon_name_spec(windows))];
    let dev = if dev_host {
        seq![ProbeView::Sibling(dev_daemon_name_spec(windows))]
    } else {
        Seq::empty()
    };
    let path = if has_path {
        seq![ProbeView::OnPath(daemon_name_spec(windows))]
    } else {
        Seq::empty()
    };
    first + dev + path
}

pub fn daemon_probes(windows: bool, exe_file_name: Option<&str>, has_path: bool) -> (r: Vec<DaemonProbe>)
    ensures
        r@.map_values(|p: DaemonProbe| probe_view(p)) == daemon_probes_spec(
            windows,
            match exe_file_name {
                Some(n) => n@ == "fresh-gui-app"@ || n@ == "fresh-gui-app.exe"@,
                None => false,
            },
            has_path,
        ),
{
    let dev_host = is_dev_host(exe_file_name);
    let mut r: Vec<DaemonProbe> = Vec::new();
    r.push(DaemonProbe::Sibling(daemon_file_name(windows)));
    if dev_host {
        r.push(DaemonProbe::Sibling(dev_daemon_file_name(windows)));
    }
    if has_path {
        r.push(DaemonProbe::OnPath(daemon_file_name(windows)));
    }
    proof {
        assert(r@.map_values(|p: DaemonProbe| probe_view(p)) =~= daemon_probes_spec(windows, dev_host, has_path));
    }
    r
}

/// The error when `FRESH_GUI_DAEMON` names no usable daemon.
pub fn unusable_daemon_message(path: &str) -> (r: String)
    ensures
        r@ == "FRESH_GUI_DAEMON="@ + path@ + " is not a usable daemon binary"@,
{
    join3("FRESH_GUI_DAEMON=", path, " is not a usable daemon binary")
}

/// The error when no daemon was found; `exe` is the running binary's path
/// as displayed.
pub open spec fn daemon_not_found_spec(windows: bool, exe: Seq<char>) -> Seq<char> {
    "could not find the headless daemon ("@ + daemon_name_spec(windows) + ") next to "@ + exe
        + " or on PATH.\nInstall with the fresh-gui install script (client and daemon), or from a checkout run `cargo build -p fresh-gui`.\nConnect remotely without a local daemon:\nfresh-gui user@host\nfresh-gui remote add <name> user@host\nfresh-gui remote connect <name>"@
}

pub fn daemon_not_found_message(windows: bool, exe: &str) -> (r: String)
    ensures
        r@ == daemon_not_found_spec(windows, exe@),
{
    let head = join3("could not find the headless daemon (", daemon_file_name(windows), ") next to ");
    let tail = join3(
        head.as_str(),
        exe,
        " or on PATH.\nInstall with the fresh-gui install script (client and daemon), or from a checkout run `cargo build -p fresh-gui`.\nConnect remotely without a local daemon:\nfresh-gui user@host\nfresh-gui remote add <name> user@host\nfresh-gui remote connect <name>",
    );
    tail
}


/// A remote target, saved (by name or by destination) or ad hoc over SSH,
/// carries the `--root` flag trimmed, or nothing when the flag is absent or
/// blank; so does a local target when no target is named.
pub proof fn remote_targets_carry_the_root_flag(
    target: Option<Seq<char>>,
    root_flag: Option<Seq<char>>,
    saved: Seq<KnownRemote>,
    existing_root: Option<Seq<char>>,
    destination_check: Result<(), Seq<char>>,
)
    ensures
        ({
            let flag = match root_flag {
                Some(f) => if trim(f).len() > 0 {
                    Some(trim(f))
                } else {
                    None
                },
                None => None,
            };
            match classify_launch_spec(target, root_flag, saved, existing_root, destination_check) {
                Ok(LaunchView::SavedRemote(_, r)) => r == flag,
                Ok(LaunchView::AdHocRemote(_, r)) => r == flag,
                Ok(LaunchView::Local(r)) => nonblank(target) is None ==> r == flag,
                Err(_) => true,
            }
        }),
{
}

/// A target naming a saved remote opens that remote, with the `--root`
/// flag trimmed as its root override; a target equal to a saved remote's
/// destination opens the first remote saved with it, by its name. The target
/// is taken trimmed, holds no `@`, and names no existing path.
pub proof fn saved_remotes_are_found_by_name_or_destination(
    target: Seq<char>,
    root_flag: Option<Seq<char>>,
    saved: Seq<KnownRemote>,
    i: int,
    destination_check: Result<(), Seq<char>>,
)
    requires
        trim(target).len() > 0,
        !trim(target).contains('@'),
        0 <= i < saved.len(),
        saved[i].name@ == trim(target) || saved[i].destination@ == trim(target),
    ensures
        ({
            let flag = match root_flag {
                Some(f) => if trim(f).len() > 0 {
                    Some(trim(f))
                } else {
                    None
                },
                None => None,
            };
            match classify_launch_spec(Some(target), root_flag, saved, None, destination_check) {
                Ok(LaunchView::SavedRemote(name, r)) => r == flag && (exists|j: int| 0 <= j < saved.len()
                    && #[trigger] saved[j].name@ == name && (saved[j].name@ == trim(target)
                    || saved[j].destination@ == trim(target))),
                _ => false,
            }
        }),
{
    let raw = trim(target);
    lemma_first_remote(saved, raw, true);
    lemma_first_remote(saved, raw, false);
    if saved[i].name@ != raw {
        assert(remote_key(saved[i], false) == raw);
    } else {
        assert(remote_key(saved[i], true) == raw);
    }
    match first_remote(saved, raw, true) {
        Some(j) => {
            assert(remote_key(saved[j], true) == raw);
        },
        None => {
            let j = first_remote(saved, raw, false)->0;
            assert(remote_key(saved[j], false) == raw);
        },
    }
}
} // verus!
