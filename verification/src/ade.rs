//! The backend connection: how long to wait before reconnecting, and the
//! fields of requests the window sends.

use vstd::prelude::*;

use core::time::Duration;

use crate::paths::{root_for_daemon_spec, workspace_root_for_daemon};
use crate::text::{chars_of, string_of, trim, trim_str};

verus! {

/// The `Duration` that `Duration::from_secs` builds from `secs`.
pub uninterp spec fn seconds(secs: u64) -> Duration;

/// `Duration::from_secs`: a span of exactly `secs` whole seconds.
#[verifier::external_body]
fn from_secs(secs: u64) -> (d: Duration)
    ensures
        d == seconds(secs),
{
    Duration::from_secs(secs)
}

/// Pause before the window tries the backend again after losing it.
pub fn reconnect_delay() -> (d: Duration)
    ensures
        d == seconds(2),
{
    from_secs(2)
}

/// A create-workspace request as the daemon gets it: a blank name lets the
/// daemon pick one (the name itself is sent untrimmed); a blank root means
/// the daemon's file-system root; any other root is put in the daemon's
/// path syntax, which may refuse it.
pub open spec fn create_request_spec(name: Seq<char>, root: Seq<char>, unix: bool) -> Result<
    (Option<Seq<char>>, Option<Seq<char>>),
    Seq<char>,
> {
    let n = if trim(name).len() == 0 {
        None
    } else {
        Some(name)
    };
    if trim(root).len() == 0 {
        Ok((n, None))
    } else {
        match root_for_daemon_spec(root, unix) {
            Ok(r) => Ok((n, Some(r))),
            Err(e) => Err(e),
        }
    }
}

/// Name and root for a create-workspace request typed in the window; `unix`
/// says whether the daemon uses Unix paths.
pub fn create_workspace_request(name: String, root: &str, unix: bool) -> (r: Result<
    (Option<String>, Option<String>),
    String,
>)
    ensures
        match r {
            Ok((n, p)) => create_request_spec(name@, root@, unix) == Ok::<
                (Option<Seq<char>>, Option<Seq<char>>),
                Seq<char>,
            >((n.deep_view(), p.deep_view())),
            Err(e) => create_request_spec(name@, root@, unix) == Err::<
                (Option<Seq<char>>, Option<Seq<char>>),
                Seq<char>,
            >(e@),
        },
{
    let n = if trim_str(name.as_str()).len() == 0 {
        None
    } else {
        Some(name)
    };
    if trim_str(root).len() == 0 {
        return Ok((n, None));
    }
    match workspace_root_for_daemon(root, unix) {
        Ok(r) => Ok((n, Some(r))),
        Err(e) => Err(string_of(&chars_of(e))),
    }
}

} // verus!
