//! Turning a saved workspace tab list into dock work.
//!
//! The daemon keeps the list across a switch, a reconnect, and (with its state
//! file) a restart. A terminal tab whose PTY is still live reattaches. One
//! whose PTY died with the previous daemon is started again with its title.

use vstd::prelude::*;

use crate::strs::{contains_str, push_string};

verus! {

/// What a saved tab showed.
#[derive(Clone, Copy, Debug, PartialEq, Eq)]
pub enum WorkspaceTabKind {
    Terminal,
    Editor,
}

/// One tab of a saved workspace, as the daemon stores it.
#[derive(Clone, Debug, PartialEq, Eq)]
pub struct WorkspaceTab {
    pub kind: WorkspaceTabKind,
    pub title: String,
    /// The terminal's PTY, for a terminal tab.
    pub pty_id: Option<String>,
    /// The file, for an editor tab.
    pub path: Option<String>,
}

pub struct TabView {
    pub kind: WorkspaceTabKind,
    pub title: Seq<char>,
    pub pty_id: Option<Seq<char>>,
    pub path: Option<Seq<char>>,
}

impl View for WorkspaceTab {
    type V = TabView;

    open spec fn view(&self) -> TabView {
        TabView {
            kind: self.kind,
            title: self.title@,
            pty_id: self.pty_id.deep_view(),
            path: self.path.deep_view(),
        }
    }
}

#[derive(Clone, Debug, PartialEq, Eq)]
pub enum RestoreStep {
    /// Reattach a live PTY.
    Attach { pty_id: String, title: String },
    /// Start a new shell in place of a PTY that no longer exists.
    Respawn { title: String },
    /// Reopen a file. `activate` marks the saved active tab.
    Editor { path: String, activate: bool },
}

pub enum StepView {
    Attach(Seq<char>, Seq<char>),
    Respawn(Seq<char>),
    Editor(Seq<char>, bool),
}

impl View for RestoreStep {
    type V = StepView;

    open spec fn view(&self) -> StepView {
        match self {
            RestoreStep::Attach { pty_id, title } => StepView::Attach(pty_id@, title@),
            RestoreStep::Respawn { title } => StepView::Respawn(title@),
            RestoreStep::Editor { path, activate } => StepView::Editor(path@, *activate),
        }
    }
}

#[derive(Clone, Debug, PartialEq, Eq)]
pub struct RestorePlan {
    pub steps: Vec<RestoreStep>,
    /// Live PTY to select after editors finish opening, when the saved active
    /// tab is a terminal.
    pub focus_pty: Option<String>,
    /// Live PTYs not named by any tab (opened just before a crash).
    pub orphans: Vec<String>,
}

pub open spec fn tabs_view(tabs: Seq<WorkspaceTab>) -> Seq<TabView> {
    tabs.map_values(|t: WorkspaceTab| t@)
}

pub open spec fn steps_view(steps: Seq<RestoreStep>) -> Seq<StepView> {
    steps.map_values(|s: RestoreStep| s@)
}

/// Plan state after some tabs: the steps, the PTY to focus, and the PTYs
/// already attached.
pub struct PlanState {
    pub steps: Seq<StepView>,
    pub focus: Option<Seq<char>>,
    pub seen: Seq<Seq<char>>,
}

/// The state after the tab at `index` (saved position `index`).
pub open spec fn plan_step(st: PlanState, tab: TabView, index: int, active: u32, live: Seq<Seq<char>>) -> PlanState {
    let is_active = (index as u32) == active;
    match tab.kind {
        WorkspaceTabKind::Terminal => match tab.pty_id {
            Some(id) => if live.contains(id) {
                if st.seen.contains(id) {
                    st
                } else {
                    PlanState {
                        steps: st.steps.push(StepView::Attach(id, tab.title)),
                        focus: if is_active {
                            Some(id)
                        } else {
                            st.focus
                        },
                        seen: st.seen.push(id),
                    }
                }
            } else {
                PlanState { steps: st.steps.push(StepView::Respawn(tab.title)), ..st }
            },
            None => PlanState { steps: st.steps.push(StepView::Respawn(tab.title)), ..st },
        },
        WorkspaceTabKind::Editor => match tab.path {
            Some(p) => PlanState { steps: st.steps.push(StepView::Editor(p, is_active)), ..st },
            None => st,
        },
    }
}

/// The state after the first `n` tabs.
pub open spec fn plan_upto(tabs: Seq<TabView>, active: u32, live: Seq<Seq<char>>, n: int) -> PlanState
    decreases n,
{
    if n <= 0 {
        PlanState { steps: Seq::empty(), focus: None, seen: Seq::empty() }
    } else {
        plan_step(plan_upto(tabs, active, live, n - 1), tabs[n - 1], n - 1, active, live)
    }
}

/// Live PTYs, in order and once each, that are not in `seen`.
pub open spec fn orphans_of(live: Seq<Seq<char>>, seen: Seq<Seq<char>>) -> Seq<Seq<char>>
    decreases live.len(),
{
    if live.len() == 0 {
        Seq::empty()
    } else {
        let before = orphans_of(live.drop_last(), seen);
        let id = live.last();
        if seen.contains(id) || before.contains(id) {
            before
        } else {
            before.push(id)
        }
    }
}

/// Turn the saved tabs into dock work. `active_tab` is the saved active
/// tab's position; `live` lists the PTYs the daemon still runs.
pub fn restore_plan(tabs: Vec<WorkspaceTab>, active_tab: u32, live: &[String]) -> (plan: RestorePlan)
    ensures
        ({
            let st = plan_upto(tabs_view(tabs@), active_tab, live.deep_view(), tabs@.len() as int);
            &&& steps_view(plan.steps@) == st.steps
            &&& plan.focus_pty.deep_view() == st.focus
            &&& plan.orphans.deep_view() == orphans_of(live.deep_view(), st.seen)
        }),
{
    let ghost tv = tabs_view(tabs@);
    let ghost lv = live.deep_view();
    let mut steps: Vec<RestoreStep> = Vec::new();
    let mut focus: Option<String> = None;
    let mut seen: Vec<String> = Vec::new();
    let mut i: usize = 0;
    while i < tabs.len()
        invariant
            i <= tabs@.len(),
            tv == tabs_view(tabs@),
            lv == live.deep_view(),
            ({
                let st = plan_upto(tv, active_tab, lv, i as int);
                &&& steps_view(steps@) == st.steps
                &&& focus.deep_view() == st.focus
                &&& seen.deep_view() == st.seen
            }),
        decreases tabs.len() - i,
    {
        let tab = &tabs[i];
        let is_active = (i as u32) == active_tab;
        let ghost before_steps = steps@;
        proof {
            assert(tv[i as int] == tab@);
        }
        match tab.kind {
            WorkspaceTabKind::Terminal => {
                let mut attach: Option<String> = None;
                if let Some(id) = &tab.pty_id {
                    if contains_str(live, id.as_str()) {
                        attach = Some(id.clone());
                    }
                }
                match attach {
                    Some(id) => {
                        if !contains_str(seen.as_slice(), id.as_str()) {
                            if is_active {
                                focus = Some(id.clone());
                            }
                            push_string(&mut seen, id.clone());
                            steps.push(RestoreStep::Attach { pty_id: id, title: tab.title.clone() });
                        }
                    },
                    None => {
                        steps.push(RestoreStep::Respawn { title: tab.title.clone() });
                    },
                }
            },
            WorkspaceTabKind::Editor => {
                if let Some(path) = &tab.path {
                    steps.push(RestoreStep::Editor { path: path.clone(), activate: is_active });
                }
            },
        }
        proof {
            assert(steps_view(steps@) =~= plan_upto(tv, active_tab, lv, i + 1).steps);
        }
        i += 1;
    }
    let mut orphans: Vec<String> = Vec::new();
    let ghost seen_tabs = seen.deep_view();
    let mut k: usize = 0;
    while k < live.len()
        invariant
            k <= live@.len(),
            lv == live.deep_view(),
            orphans.deep_view() == orphans_of(lv.take(k as int), seen_tabs),
            seen.deep_view() == seen_tabs + orphans.deep_view(),
        decreases live.len() - k,
    {
        let id = &live[k];
        proof {
            assert(lv.take(k + 1).drop_last() =~= lv.take(k as int));
            assert(lv.take(k + 1).last() == id@);
            assert((seen_tabs + orphans.deep_view()).contains(id@) == (seen_tabs.contains(id@)
                || orphans.deep_view().contains(id@))) by {
                let all = seen_tabs + orphans.deep_view();
                if all.contains(id@) {
                    let j = choose|j: int| 0 <= j < all.len() && all[j] == id@;
                    if j >= seen_tabs.len() {
                        assert(orphans.deep_view()[j - seen_tabs.len()] == id@);
                    }
                }
                if orphans.deep_view().contains(id@) {
                    let j = choose|j: int| 0 <= j < orphans.deep_view().len() && orphans.deep_view()[j] == id@;
                    assert(all[j + seen_tabs.len()] == id@);
                }
                if seen_tabs.contains(id@) {
                    let j = choose|j: int| 0 <= j < seen_tabs.len() && seen_tabs[j] == id@;
                    assert(all[j] == id@);
                }
            }
        }
        if !contains_str(seen.as_slice(), id.as_str()) {
            push_string(&mut seen, id.clone());
            push_string(&mut orphans, id.clone());
            proof {
                assert(seen.deep_view() =~= seen_tabs + orphans.deep_view());
            }
        }
        k += 1;
    }
    proof {
        assert(lv.take(live@.len() as int) =~= lv);
    }
    RestorePlan { steps, focus_pty: focus, orphans }
}

/// The PTY ids of the `Attach` steps, in order.
pub open spec fn attached_ids(steps: Seq<StepView>) -> Seq<Seq<char>>
    decreases steps.len(),
{
    if steps.len() == 0 {
        Seq::empty()
    } else {
        let before = attached_ids(steps.drop_last());
        match steps.last() {
            StepView::Attach(id, _) => before.push(id),
            _ => before,
        }
    }
}

pub open spec fn no_dups(s: Seq<Seq<char>>) -> bool {
    forall|i: int, j: int| 0 <= i < j < s.len() ==> s[i] != s[j]
}

pub open spec fn plan_state_ok(st: PlanState, live: Seq<Seq<char>>) -> bool {
    &&& attached_ids(st.steps) == st.seen
    &&& no_dups(st.seen)
    &&& forall|i: int| 0 <= i < st.seen.len() ==> live.contains(#[trigger] st.seen[i])
    &&& (st.focus matches Some(f) ==> st.seen.contains(f))
}

proof fn lemma_push_contains(s: Seq<Seq<char>>, x: Seq<char>, y: Seq<char>)
    ensures
        s.push(x).contains(y) == (s.contains(y) || x == y),
{
    if s.push(x).contains(y) {
        let j = choose|j: int| 0 <= j < s.push(x).len() && s.push(x)[j] == y;
        if j < s.len() {
            assert(s[j] == y);
        }
    }
    if s.contains(y) {
        let j = choose|j: int| 0 <= j < s.len() && s[j] == y;
        assert(s.push(x)[j] == y);
    }
    if x == y {
        assert(s.push(x)[s.len() as int] == y);
    }
}

proof fn lemma_plan_upto_ok(tabs: Seq<TabView>, active: u32, live: Seq<Seq<char>>, n: int)
    requires
        0 <= n <= tabs.len(),
    ensures
        plan_state_ok(plan_upto(tabs, active, live, n), live),
    decreases n,
{
    if n > 0 {
        lemma_plan_upto_ok(tabs, active, live, n - 1);
        let st = plan_upto(tabs, active, live, n - 1);
        let next = plan_upto(tabs, active, live, n);
        let tab = tabs[n - 1];
        if next.steps.len() > st.steps.len() {
            assert(next.steps.drop_last() =~= st.steps);
        }
        if next.seen != st.seen {
            let id = tab.pty_id->0;
            assert(next.seen == st.seen.push(id));
            assert(!st.seen.contains(id));
            assert forall|i: int, j: int| 0 <= i < j < next.seen.len() implies next.seen[i]
                != next.seen[j] by {
                if j == st.seen.len() {
                    assert(st.seen[i] != id);
                }
            }
            assert forall|i: int| 0 <= i < next.seen.len() implies live.contains(
                #[trigger] next.seen[i],
            ) by {
                if i < st.seen.len() {
                    assert(next.seen[i] == st.seen[i]);
                }
            }
            if let Some(f) = next.focus {
                lemma_push_contains(st.seen, id, f);
            }
        }
    }
}

proof fn lemma_orphans(live: Seq<Seq<char>>, seen: Seq<Seq<char>>)
    ensures
        no_dups(orphans_of(live, seen)),
        forall|i: int|
            0 <= i < orphans_of(live, seen).len() ==> !seen.contains(
                #[trigger] orphans_of(live, seen)[i],
            ) && live.contains(orphans_of(live, seen)[i]),
        forall|i: int|
            0 <= i < live.len() ==> seen.contains(#[trigger] live[i]) || orphans_of(
                live,
                seen,
            ).contains(live[i]),
    decreases live.len(),
{
    if live.len() > 0 {
        let rest = live.drop_last();
        lemma_orphans(rest, seen);
        let before = orphans_of(rest, seen);
        let id = live.last();
        let o = orphans_of(live, seen);
        assert forall|i: int| 0 <= i < before.len() implies live.contains(#[trigger] before[i]) by {
            let j = choose|j: int| 0 <= j < rest.len() && rest[j] == before[i];
            assert(live[j] == before[i]);
        }
        assert(live[live.len() - 1] == id);
        if !(seen.contains(id) || before.contains(id)) {
            assert(o == before.push(id));
            assert forall|i: int, j: int| 0 <= i < j < o.len() implies o[i] != o[j] by {
                if j == before.len() {
                    assert(o[i] == before[i]);
                }
            }
        }
        assert forall|i: int| 0 <= i < live.len() implies seen.contains(#[trigger] live[i])
            || o.contains(live[i]) by {
            if i < live.len() - 1 {
                assert(live[i] == rest[i]);
                if before.contains(live[i]) && o != before {
                    lemma_push_contains(before, id, live[i]);
                }
            } else if o != before {
                lemma_push_contains(before, id, id);
            }
        }
    }
}

/// Every PTY the daemon still runs is accounted for exactly once: either a
/// tab reattaches it (in one `Attach` step, whatever the number of tabs
/// that name it) or it is kept as an orphan. Nothing else is attached or
/// kept, and the focused PTY is one that is reattached.
pub proof fn restore_accounts_for_live_ptys(tabs: Seq<TabView>, active: u32, live: Seq<Seq<char>>)
    ensures
        ({
            let st = plan_upto(tabs, active, live, tabs.len() as int);
            let attached = attached_ids(st.steps);
            let orphans = orphans_of(live, st.seen);
            &&& no_dups(attached)
            &&& no_dups(orphans)
            &&& forall|i: int| 0 <= i < attached.len() ==> live.contains(#[trigger] attached[i])
            &&& forall|i: int|
                0 <= i < orphans.len() ==> live.contains(#[trigger] orphans[i])
                    && !attached.contains(orphans[i])
            &&& forall|i: int|
                0 <= i < live.len() ==> attached.contains(#[trigger] live[i]) || orphans.contains(
                    live[i],
                )
            &&& (st.focus matches Some(f) ==> attached.contains(f))
        }),
{
    lemma_plan_upto_ok(tabs, active, live, tabs.len() as int);
    let st = plan_upto(tabs, active, live, tabs.len() as int);
    lemma_orphans(live, st.seen);
}

} // verus!
