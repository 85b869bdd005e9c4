//! Command-line rules of the desktop binary: which log lines are shutdown
//! noise, the default log filter, and which argument combinations
//! `fresh-gui` refuses before it opens anything.

use vstd::prelude::*;

use crate::launch::{join3, LaunchTarget, LaunchView};
use crate::text::{
    chars_of, concat, decimal, decimal_chars, drop_trailing, eq_chars, skip_leading, strip_end, strip_start,
    string_of, trim, trim_str, CharSet,
};

verus! {

/// Our own logs at info; GPUI and gpui-kit start at warn. `RUST_LOG`
/// replaces this whole filter.
pub const DEFAULT_LOG_FILTER: &'static str = "info,gpui=warn,gpui_base=warn,gpui_component=warn";

/// `s.trim_matches('"')`.
pub open spec fn unquoted(s: Seq<char>) -> Seq<char> {
    strip_end(strip_start(s, CharSet::DoubleQuote), CharSet::DoubleQuote)
}

/// The window errors the platform reports while a closing window's handle
/// is torn down.
pub open spec fn is_shutdown_window_error(message: Seq<char>) -> bool {
    let m = unquoted(message);
    m == "window not found"@ || m == "Invalid window handle (0x80040102)"@
        || m == "Invalid window handle. (0x80070578)"@
}

/// A log message that only says the closing window is already gone. The
/// message may arrive wrapped in double quotes.
pub fn known_shutdown_window_error(message: &str) -> (r: bool)
    ensures
        r == is_shutdown_window_error(message@),
{
    let v = chars_of(message);
    proof {
        assert(v@.subrange(0, v@.len() as int) =~= v@);
    }
    let lo = skip_leading(&v, 0, v.len(), CharSet::DoubleQuote);
    let hi = drop_trailing(&v, lo, v.len(), CharSet::DoubleQuote);
    let m = crate::text::slice_vec(&v, lo, hi);
    eq_chars(&m, &chars_of("window not found")) || eq_chars(
        &m,
        &chars_of("Invalid window handle (0x80040102)"),
    ) || eq_chars(&m, &chars_of("Invalid window handle. (0x80070578)"))
}

/// How a bare `fresh-gui` (or `fresh-gui gui`) proceeds once its arguments
/// are accepted.
#[derive(Clone, Copy, Debug, PartialEq, Eq, Structural)]
pub enum DefaultOpen {
    /// Open the window on the `--backend` URL as given.
    Backend,
    /// Classify the positional target and launch local or remote.
    Launch,
}

pub open spec fn either_message() -> Seq<char> {
    "pass either TARGET or --backend"@
}

pub open spec fn no_ui_backend_message() -> Seq<char> {
    "--no-ui starts the local daemon and does not use --backend"@
}

/// The argument check `fresh-gui` makes before anything else: a positional
/// target and `--backend` exclude each other, and `--no-ui` (which only
/// starts the local daemon) takes no `--backend`.
pub fn check_default_args(has_target: bool, has_backend: bool, no_ui: bool) -> (r: Result<
    DefaultOpen,
    String,
>)
    ensures
        has_backend && has_target ==> (r matches Err(e) && e@ == either_message()),
        has_backend && !has_target && no_ui ==> (r matches Err(e) && e@ == no_ui_backend_message()),
        has_backend && !has_target && !no_ui ==> r == Ok::<DefaultOpen, String>(DefaultOpen::Backend),
        !has_backend ==> r == Ok::<DefaultOpen, String>(DefaultOpen::Launch),
{
    if has_backend && has_target {
        return Err(string_of(&chars_of("pass either TARGET or --backend")));
    }
    if no_ui && has_backend {
        return Err(
            string_of(&chars_of("--no-ui starts the local daemon and does not use --backend")),
        );
    }
    if has_backend {
        Ok(DefaultOpen::Backend)
    } else {
        Ok(DefaultOpen::Launch)
    }
}

/// What `--no-ui` answers for a launch target: it only starts the local
/// daemon, so a remote target is refused with the command that opens it.
pub open spec fn no_ui_refusal_spec(launch: LaunchView) -> Option<Seq<char>> {
    match launch {
        LaunchView::Local(_) => None,
        LaunchView::SavedRemote(name, _) => Some(
            "--no-ui is the local daemon. Use `fresh-gui remote connect "@ + name
                + "` to open a remote."@,
        ),
        LaunchView::AdHocRemote(destination, _) => Some(
            "--no-ui is the local daemon. Use `fresh-gui "@ + destination + "` to open that host."@,
        ),
    }
}

/// The error `fresh-gui --no-ui` gives for `launch`, if it refuses it.
pub fn no_ui_refusal(launch: &LaunchTarget) -> (r: Option<String>)
    ensures
        r.deep_view() == no_ui_refusal_spec(launch@),
{
    match launch {
        LaunchTarget::Local { .. } => None,
        LaunchTarget::SavedRemote { name, .. } => Some(
            join3(
                "--no-ui is the local daemon. Use `fresh-gui remote connect ",
                name.as_str(),
                "` to open a remote.",
            ),
        ),
        LaunchTarget::AdHocRemote { destination, .. } => Some(
            join3(
                "--no-ui is the local daemon. Use `fresh-gui ",
                destination.as_str(),
                "` to open that host.",
            ),
        ),
    }
}


/// Where `fresh-gui remote daemon` points the remote bootstrap.
#[derive(Clone, Debug, PartialEq, Eq)]
pub enum DaemonChoice {
    /// Clear a saved path or URL: use the latest GitHub linux-gnu release.
    GithubLatest,
    /// A release archive URL (trimmed).
    Url(String),
    /// A local binary or archive (the command still checks it is a file).
    Path(String),
}

pub enum DaemonChoiceView {
    GithubLatest,
    Url(Seq<char>),
    Path(Seq<char>),
}

impl View for DaemonChoice {
    type V = DaemonChoiceView;

    open spec fn view(&self) -> DaemonChoiceView {
        match self {
            DaemonChoice::GithubLatest => DaemonChoiceView::GithubLatest,
            DaemonChoice::Url(u) => DaemonChoiceView::Url(u@),
            DaemonChoice::Path(p) => DaemonChoiceView::Path(p@),
        }
    }
}

pub open spec fn exactly_one_message() -> Seq<char> {
    "pass exactly one of --url, --path, or --github-latest"@
}

/// Exactly one source must be given; a URL must not be blank.
pub open spec fn daemon_choice_spec(url: Option<Seq<char>>, path: Option<Seq<char>>, github_latest: bool) -> Result<
    DaemonChoiceView,
    Seq<char>,
> {
    let chosen = (if url is Some { 1int } else { 0 }) + (if path is Some { 1int } else { 0 }) + (if github_latest {
        1int
    } else {
        0
    });
    if chosen != 1 {
        Err(exactly_one_message())
    } else if github_latest {
        Ok(DaemonChoiceView::GithubLatest)
    } else {
        match url {
            Some(u) => if trim(u).len() == 0 {
                Err("daemon URL is empty"@)
            } else {
                Ok(DaemonChoiceView::Url(trim(u)))
            },
            None => Ok(DaemonChoiceView::Path(path->0)),
        }
    }
}

pub fn choose_daemon_source(url: Option<&str>, path: Option<&str>, github_latest: bool) -> (r: Result<
    DaemonChoice,
    String,
>)
    ensures
        match r {
            Ok(c) => daemon_choice_spec(crate::launch::opt_str(url), crate::launch::opt_str(path), github_latest)
                == Ok::<DaemonChoiceView, Seq<char>>(c@),
            Err(e) => daemon_choice_spec(crate::launch::opt_str(url), crate::launch::opt_str(path), github_latest)
                == Err::<DaemonChoiceView, Seq<char>>(e@),
        },
{
    let mut chosen: u8 = 0;
    if url.is_some() {
        chosen = chosen + 1;
    }
    if path.is_some() {
        chosen = chosen + 1;
    }
    if github_latest {
        chosen = chosen + 1;
    }
    if chosen != 1 {
        return Err(string_of(&chars_of("pass exactly one of --url, --path, or --github-latest")));
    }
    if github_latest {
        return Ok(DaemonChoice::GithubLatest);
    }
    match url {
        Some(u) => {
            let t = trim_str(u);
            if t.len() == 0 {
                Err(string_of(&chars_of("daemon URL is empty")))
            } else {
                Ok(DaemonChoice::Url(string_of(&t)))
            }
        },
        None => match path {
            Some(p) => Ok(DaemonChoice::Path(string_of(&chars_of(p)))),
            None => Err(string_of(&chars_of("pass exactly one of --url, --path, or --github-latest"))),
        },
    }
}

/// One line of `fresh-gui remote list`: name, destination, then the port
/// and remote root when they are set.
pub open spec fn remote_line_spec(name: Seq<char>, destination: Seq<char>, port: Option<u16>, root: Option<Seq<char>>) -> Seq<char> {
    let port_part = match port {
        Some(p) => "  port "@ + decimal(p as nat),
        None => Seq::empty(),
    };
    let root_part = match root {
        Some(r) => "  root "@ + r,
        None => Seq::empty(),
    };
    "  "@ + name + "  "@ + destination + port_part + root_part
}

pub fn remote_list_line(name: &str, destination: &str, port: Option<u16>, root: Option<&str>) -> (r: String)
    ensures
        r@ == remote_line_spec(name@, destination@, port, crate::launch::opt_str(root)),
{
    let head = concat(&concat(&concat(&chars_of("  "), &chars_of(name)), &chars_of("  ")), &chars_of(destination));
    let with_port = match port {
        Some(p) => concat(&head, &concat(&chars_of("  port "), &decimal_chars(p as u128))),
        None => head,
    };
    let full = match root {
        Some(r) => concat(&with_port, &concat(&chars_of("  root "), &chars_of(r))),
        None => with_port,
    };
    proof {
        assert(full@ =~= remote_line_spec(name@, destination@, port, crate::launch::opt_str(root)));
    }
    string_of(&full)
}

} // verus!
