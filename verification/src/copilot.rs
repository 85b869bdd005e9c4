//! GitHub Copilot CLI in non-interactive prompt mode: the file names the
//! window looks for on PATH, and what it shows for the process's outcome.

use vstd::prelude::*;

use crate::launch::join3;
use crate::text::{chars_of, concat, split_char, split_pieces, string_of, trim, trim_str};

verus! {

/// `PATHEXT` when the variable is unset.
pub open spec fn default_pathext() -> Seq<char> {
    ".COM;.EXE;.BAT;.CMD"@
}

/// File names tried in each PATH directory, in order: `copilot` alone off
/// Windows; on Windows `copilot` with each `PATHEXT` extension.
pub open spec fn cli_names_spec(pathext: Option<Seq<char>>, windows: bool) -> Seq<Seq<char>> {
    if !windows {
        seq!["copilot"@]
    } else {
        let exts = split_char(
            match pathext {
                Some(p) => p,
                None => default_pathext(),
            },
            ';',
        );
        exts.map_values(|e: Seq<char>| "copilot"@ + e)
    }
}

pub fn cli_file_names(pathext: Option<&str>, windows: bool) -> (r: Vec<String>)
    ensures
        r.deep_view() == cli_names_spec(crate::launch::opt_str(pathext), windows),
{
    if !windows {
        let mut r: Vec<String> = Vec::new();
        r.push(string_of(&chars_of("copilot")));
        proof {
            assert(r.deep_view() =~= seq!["copilot"@]);
        }
        return r;
    }
    let list = match pathext {
        Some(p) => chars_of(p),
        None => chars_of(".COM;.EXE;.BAT;.CMD"),
    };
    proof {
        assert(list@.subrange(0, list@.len() as int) =~= list@);
    }
    let exts = split_pieces(&list, 0, list.len(), ';');
    let ghost pieces = split_char(list@, ';');
    let base = chars_of("copilot");
    let mut r: Vec<String> = Vec::new();
    let mut i: usize = 0;
    while i < exts.len()
        invariant
            i <= exts@.len(),
            exts.deep_view() == pieces,
            base@ == "copilot"@,
            r.deep_view() == pieces.take(i as int).map_values(|e: Seq<char>| "copilot"@ + e),
        decreases exts.len() - i,
    {
        let name = string_of(&concat(&base, &chars_of(exts[i].as_str())));
        let ghost prev = r.deep_view();
        r.push(name);
        proof {
            assert(exts.deep_view()[i as int] == exts@[i as int]@);
            assert(pieces.take(i + 1) =~= pieces.take(i as int).push(pieces[i as int]));
            assert(r.deep_view() =~= prev.push("copilot"@ + pieces[i as int]));
            assert(r.deep_view() =~= pieces.take(i + 1).map_values(|e: Seq<char>| "copilot"@ + e));
        }
        i += 1;
    }
    proof {
        assert(pieces.take(i as int) =~= pieces);
    }
    r
}

/// What the prompt returns: the trimmed standard output on success (with
/// a note when it is empty), otherwise the trimmed standard error, or the
/// exit status when there is none.
pub open spec fn reply_spec(success: bool, status: Seq<char>, stdout: Seq<char>, stderr: Seq<char>) -> Result<
    Seq<char>,
    Seq<char>,
> {
    if success {
        let out = trim(stdout);
        Ok(
            if out.len() == 0 {
                "Copilot returned an empty response."@
            } else {
                out
            },
        )
    } else {
        let err = trim(stderr);
        Err(
            if err.len() == 0 {
                "Copilot CLI exited with "@ + status + "."@
            } else {
                "Copilot CLI failed: "@ + err
            },
        )
    }
}

/// The reply for a finished `copilot -p` run. `status` is the exit status
/// as the platform prints it; `stdout` and `stderr` are the captured output
/// decoded as text.
pub fn copilot_reply(success: bool, status: &str, stdout: &str, stderr: &str) -> (r: Result<
    String,
    String,
>)
    ensures
        match r {
            Ok(s) => reply_spec(success, status@, stdout@, stderr@) == Ok::<Seq<char>, Seq<char>>(s@),
            Err(e) => reply_spec(success, status@, stdout@, stderr@) == Err::<Seq<char>, Seq<char>>(e@),
        },
{
    if success {
        let out = trim_str(stdout);
        if out.len() == 0 {
            Ok(string_of(&chars_of("Copilot returned an empty response.")))
        } else {
            Ok(string_of(&out))
        }
    } else {
        let err = trim_str(stderr);
        if err.len() == 0 {
            Err(join3("Copilot CLI exited with ", status, "."))
        } else {
            Err(string_of(&concat(&chars_of("Copilot CLI failed: "), &err)))
        }
    }
}

/// The message shown when the CLI process cannot be started at all.
pub fn start_failure(error: &str) -> (r: String)
    ensures
        r@ == "Could not start Copilot CLI: "@ + error@,
{
    string_of(&concat(&chars_of("Could not start Copilot CLI: "), &chars_of(error)))
}

} // verus!
