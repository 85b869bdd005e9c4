//! The launcher entry a Wayland dock reads to find the window icon: where
//! its files go and what the desktop file says.

use vstd::prelude::*;

use crate::text::{chars_of, concat, string_of};

verus! {

/// Default kit icons, then the explorer file-type set.
#[derive(Clone, Copy, Debug, Default)]
pub struct HostAssets;

/// Characters that make a desktop `Exec` path need quotes.
pub open spec fn exec_special(c: char) -> bool {
    c == ' ' || c == '\t' || c == '\n' || c == '"' || c == '\\' || c == '\''
}

pub open spec fn needs_quotes(path: Seq<char>) -> bool {
    exists|i: int| 0 <= i < path.len() && #[trigger] exec_special(path[i])
}

/// `\` becomes `\\` and `"` becomes `\"`.
pub open spec fn escape_exec(path: Seq<char>) -> Seq<char>
    decreases path.len(),
{
    if path.len() == 0 {
        path
    } else {
        let c = path.last();
        escape_exec(path.drop_last()) + if c == '\\' {
            seq!['\\', '\\']
        } else if c == '"' {
            seq!['\\', '"']
        } else {
            seq![c]
        }
    }
}

pub open spec fn desktop_exec_spec(path: Seq<char>) -> Seq<char> {
    if needs_quotes(path) {
        seq!['"'] + escape_exec(path) + seq!['"']
    } else {
        path
    }
}

/// Quote a desktop `Exec` value when the path is not a bare token.
pub fn desktop_exec(path: &str) -> (r: String)
    ensures
        r@ == desktop_exec_spec(path@),
{
    let p = chars_of(path);
    let mut special = false;
    let mut escaped: Vec<char> = Vec::new();
    let mut i: usize = 0;
    while i < p.len()
        invariant
            i <= p@.len(),
            p@ == path@,
            escaped@ == escape_exec(p@.take(i as int)),
            special == exists|j: int| 0 <= j < i && #[trigger] exec_special(p@[j]),
        decreases p.len() - i,
    {
        let c = p[i];
        if c == ' ' || c == '\t' || c == '\n' || c == '"' || c == '\\' || c == '\'' {
            special = true;
        }
        if c == '\\' {
            escaped.push('\\');
            escaped.push('\\');
        } else if c == '"' {
            escaped.push('\\');
            escaped.push('"');
        } else {
            escaped.push(c);
        }
        proof {
            assert(p@.take(i + 1).drop_last() =~= p@.take(i as int));
            assert(p@.take(i + 1).last() == c);
            assert(escaped@ =~= escape_exec(p@.take(i + 1)));
            if exec_special(c) {
                assert(exec_special(p@[i as int]));
            }
        }
        i += 1;
    }
    proof {
        assert(p@.take(p@.len() as int) =~= p@);
    }
    if !special {
        return string_of(&p);
    }
    let mut out: Vec<char> = Vec::new();
    out.push('"');
    let mut out = concat(&out, &escaped);
    out.push('"');
    proof {
        assert(out@ =~= seq!['"'] + escape_exec(path@) + seq!['"']);
    }
    string_of(&out)
}

/// `PathBuf::join` with a relative part on a Unix path: a `/` goes between
/// unless the base is empty or already ends with one.
pub open spec fn join_path(base: Seq<char>, part: Seq<char>) -> Seq<char> {
    if base.len() == 0 {
        part
    } else if base.last() == '/' {
        base + part
    } else {
        base + seq!['/'] + part
    }
}

fn join(base: &str, part: &str) -> (r: String)
    ensures
        r@ == join_path(base@, part@),
{
    let b = chars_of(base);
    let p = chars_of(part);
    if b.len() == 0 {
        return string_of(&p);
    }
    if b[b.len() - 1] == '/' {
        return string_of(&concat(&b, &p));
    }
    let mut with_sep = b;
    with_sep.push('/');
    string_of(&concat(&with_sep, &p))
}

/// The user data directory: `XDG_DATA_HOME` when set and non-empty, else
/// `$HOME/.local/share`.
pub open spec fn user_data_dir_spec(xdg: Option<Seq<char>>, home: Option<Seq<char>>) -> Option<
    Seq<char>,
> {
    match xdg {
        Some(x) if x.len() > 0 => Some(x),
        _ => match home {
            Some(h) => Some(join_path(h, ".local/share"@)),
            None => None,
        },
    }
}

pub open spec fn opt_str(o: Option<&str>) -> Option<Seq<char>> {
    match o {
        Some(s) => Some(s@),
        None => None,
    }
}

/// Text of the `fresh-gui.desktop` launcher entry.
pub open spec fn desktop_entry_spec(exec: Seq<char>, icon: Seq<char>) -> Seq<char> {
    "[Desktop Entry]\nType=Application\nName=fresh-gui\nComment=Files, terminals, and Git\nExec="@
        + desktop_exec_spec(exec) + "\nIcon="@ + icon
        + "\nTerminal=false\nCategories=Development;\nStartupWMClass=fresh-gui\n"@
}

/// Where the launcher entry's files go and what the desktop file holds.
#[derive(Clone, Debug, PartialEq, Eq)]
pub struct DesktopInstall {
    /// Directories to create first.
    pub icon_dir: String,
    pub apps_dir: String,
    /// Where the PNG icon goes (written only when it differs).
    pub icon_path: String,
    /// Where the desktop file goes (written only when it differs).
    pub desktop_path: String,
    pub desktop_text: String,
}

/// Best-effort launcher entry so a Wayland dock can show the icon.
///
/// `xdg_data_home`, `home` and `exe` are the environment and the running
/// binary's path; with no data directory there is nothing to install. The
/// caller creates the directories and writes the files, ignoring failures:
/// the window still opens.
pub fn install_user_desktop_entry(
    xdg_data_home: Option<&str>,
    home: Option<&str>,
    exe: Option<&str>,
) -> (r: Option<DesktopInstall>)
    ensures
        match user_data_dir_spec(opt_str(xdg_data_home), opt_str(home)) {
            None => r is None,
            Some(data) => r matches Some(d) && {
                let icon_dir = join_path(data, "icons/hicolor/256x256/apps"@);
                let icon_path = join_path(icon_dir, "fresh-gui.png"@);
                &&& d.icon_dir@ == icon_dir
                &&& d.apps_dir@ == join_path(data, "applications"@)
                &&& d.icon_path@ == icon_path
                &&& d.desktop_path@ == join_path(join_path(data, "applications"@), "fresh-gui.desktop"@)
                &&& d.desktop_text@ == desktop_entry_spec(
                    match exe {
                        Some(e) => e@,
                        None => "fresh-gui"@,
                    },
                    icon_path,
                )
            },
        },
{
    let xdg = match xdg_data_home {
        Some(x) => if x.is_empty() {
            None
        } else {
            Some(x)
        },
        None => None,
    };
    let data = match xdg {
        Some(x) => string_of(&chars_of(x)),
        None => match home {
            Some(h) => join(h, ".local/share"),
            None => {
                return None;
            },
        },
    };
    assert(user_data_dir_spec(opt_str(xdg_data_home), opt_str(home)) == Some(data@));
    let icon_dir = join(data.as_str(), "icons/hicolor/256x256/apps");
    let apps_dir = join(data.as_str(), "applications");
    let icon_path = join(icon_dir.as_str(), "fresh-gui.png");
    let desktop_path = join(apps_dir.as_str(), "fresh-gui.desktop");
    let exec = match exe {
        Some(e) => desktop_exec(e),
        None => desktop_exec("fresh-gui"),
    };
    let head = chars_of(
        "[Desktop Entry]\nType=Application\nName=fresh-gui\nComment=Files, terminals, and Git\nExec=",
    );
    let text = concat(&head, &chars_of(exec.as_str()));
    let text = concat(&text, &chars_of("\nIcon="));
    let text = concat(&text, &chars_of(icon_path.as_str()));
    let text = concat(
        &text,
        &chars_of("\nTerminal=false\nCategories=Development;\nStartupWMClass=fresh-gui\n"),
    );
    assert(text@ == desktop_entry_spec(
        match exe {
            Some(e) => e@,
            None => "fresh-gui"@,
        },
        icon_path@,
    ));
    Some(
        DesktopInstall {
            icon_dir,
            apps_dir,
            icon_path,
            desktop_path,
            desktop_text: string_of(&text),
        },
    )
}

} // verus!
