//! Directory listings the explorer has received: which entries are folders,
//! re-keying a listing read through a symlink, and dropping open folders
//! that their parent no longer lists.

use vstd::prelude::*;

use crate::explorer::{parent_dir, parent_dir_spec, ExpandedSet};
use crate::launch::opt_str;
use crate::strs::{chars_leq, sort_strings, str_eq, strings_view};
use crate::terminal::{lower, lowercase};
use crate::text::{
    chars_of, concat, contains_char, contains_chars, contains_seq, drop_trailing, string_of,
    strip_end, trim, trim_str, CharSet,
};

verus! {

/// What a directory entry is.
#[derive(Clone, Copy, Debug, PartialEq, Eq, Structural)]
pub enum FsKind {
    File,
    Dir,
    Symlink,
    /// A socket, device or anything else that is neither file nor folder.
    Other,
}

/// One entry of a directory listing.
#[derive(Clone, Debug, PartialEq, Eq)]
pub struct FsEntry {
    pub name: String,
    pub path: String,
    pub kind: FsKind,
    pub size: Option<u64>,
    /// For a symlink: what it resolves to inside the sandbox, if anything.
    pub target_kind: Option<FsKind>,
}

pub struct EntryView {
    pub name: Seq<char>,
    pub path: Seq<char>,
    pub kind: FsKind,
    pub size: Option<u64>,
    pub target_kind: Option<FsKind>,
}

impl View for FsEntry {
    type V = EntryView;

    open spec fn view(&self) -> EntryView {
        EntryView {
            name: self.name@,
            path: self.path@,
            kind: self.kind,
            size: self.size,
            target_kind: self.target_kind,
        }
    }
}

pub open spec fn entries_view(v: Seq<FsEntry>) -> Seq<EntryView> {
    v.map_values(|e: FsEntry| e@)
}

/// A row the explorer can expand: a directory, or a symlink that resolves
/// to one.
pub open spec fn is_dir_spec(e: EntryView) -> bool {
    e.kind == FsKind::Dir || (e.kind == FsKind::Symlink && e.target_kind == Some(FsKind::Dir))
}

pub fn is_dir_entry(entry: &FsEntry) -> (r: bool)
    ensures
        r == is_dir_spec(entry@),
{
    match entry.kind {
        FsKind::Dir => true,
        FsKind::Symlink => match entry.target_kind {
            Some(FsKind::Dir) => true,
            _ => false,
        },
        FsKind::File | FsKind::Other => false,
    }
}

/// The listings received so far, keyed by the directory they list.
pub struct ListingCache {
    dirs: Vec<(String, Vec<FsEntry>)>,
}

pub open spec fn keys_of(dirs: Seq<(String, Vec<FsEntry>)>) -> Seq<Seq<char>> {
    dirs.map_values(|d: (String, Vec<FsEntry>)| d.0@)
}

pub open spec fn map_of(dirs: Seq<(String, Vec<FsEntry>)>) -> Map<Seq<char>, Seq<EntryView>>
    decreases dirs.len(),
{
    if dirs.len() == 0 {
        Map::empty()
    } else {
        map_of(dirs.drop_last()).insert(dirs.last().0@, entries_view(dirs.last().1@))
    }
}

impl View for ListingCache {
    type V = Map<Seq<char>, Seq<EntryView>>;

    closed spec fn view(&self) -> Map<Seq<char>, Seq<EntryView>> {
        map_of(self.dirs@)
    }
}

proof fn lemma_map_of(dirs: Seq<(String, Vec<FsEntry>)>, i: int)
    requires
        keys_of(dirs).no_duplicates(),
        0 <= i < dirs.len(),
    ensures
        map_of(dirs).contains_key(dirs[i].0@),
        map_of(dirs)[dirs[i].0@] == entries_view(dirs[i].1@),
    decreases dirs.len(),
{
    let t = dirs.drop_last();
    assert(keys_of(t).no_duplicates()) by {
        assert forall|a: int, b: int| 0 <= a < keys_of(t).len() && 0 <= b < keys_of(t).len() && a != b implies keys_of(t)[a] != keys_of(t)[b] by {
            assert(keys_of(t)[a] == keys_of(dirs)[a] && keys_of(t)[b] == keys_of(dirs)[b]);
        }
    }
    if i < dirs.len() - 1 {
        lemma_map_of(t, i);
        assert(keys_of(dirs)[i] != keys_of(dirs)[dirs.len() - 1]);
        assert(t[i] == dirs[i]);
    }
}

proof fn lemma_map_of_keys(dirs: Seq<(String, Vec<FsEntry>)>, k: Seq<char>)
    ensures
        map_of(dirs).contains_key(k) == keys_of(dirs).contains(k),
    decreases dirs.len(),
{
    if dirs.len() > 0 {
        let t = dirs.drop_last();
        lemma_map_of_keys(t, k);
        if keys_of(dirs).contains(k) {
            let j = choose|j: int| 0 <= j < keys_of(dirs).len() && keys_of(dirs)[j] == k;
            if j < dirs.len() - 1 {
                assert(keys_of(t)[j] == k);
            }
        }
        if keys_of(t).contains(k) {
            let j = choose|j: int| 0 <= j < keys_of(t).len() && keys_of(t)[j] == k;
            assert(keys_of(dirs)[j] == k);
        }
        assert(keys_of(dirs)[dirs.len() - 1] == dirs.last().0@);
    }
}

proof fn lemma_replace(
    before: Seq<(String, Vec<FsEntry>)>,
    after: Seq<(String, Vec<FsEntry>)>,
    i: int,
    d: Seq<char>,
    ev: Seq<EntryView>,
)
    requires
        keys_of(before).no_duplicates(),
        0 <= i < before.len(),
        after.len() == before.len(),
        before[i].0@ == d,
        after[i].0@ == d,
        entries_view(after[i].1@) == ev,
        forall|k: int| 0 <= k < before.len() && k != i ==> #[trigger] after[k] == before[k],
    ensures
        keys_of(after).no_duplicates(),
        map_of(after) == map_of(before).insert(d, ev),
{
    assert(keys_of(after) =~= keys_of(before)) by {
        assert forall|k: int| 0 <= k < after.len() implies keys_of(after)[k] == keys_of(before)[k] by {
            if k != i {
                assert(after[k] == before[k]);
            }
        }
    }
    assert forall|k: Seq<char>| #[trigger] map_of(after).contains_key(k) == map_of(before).insert(d, ev).contains_key(k) by {
        lemma_map_of_keys(after, k);
        lemma_map_of_keys(before, k);
        if k == d {
            lemma_map_of(before, i);
        }
    }
    assert forall|k: Seq<char>| #[trigger] map_of(after).contains_key(k) implies map_of(after)[k] == map_of(before).insert(d, ev)[k] by {
        lemma_map_of_keys(after, k);
        let j = choose|j: int| 0 <= j < keys_of(after).len() && keys_of(after)[j] == k;
        lemma_map_of(after, j);
        if j == i {
        } else {
            lemma_map_of(before, j);
            assert(after[j] == before[j]);
            assert(keys_of(before)[j] != keys_of(before)[i]);
        }
    }
    assert(map_of(after) =~= map_of(before).insert(d, ev));
}

impl ListingCache {
    pub closed spec fn well_formed(&self) -> bool {
        keys_of(self.dirs@).no_duplicates()
    }

    /// No listings yet.
    pub fn new() -> (r: Self)
        ensures
            r.well_formed(),
            r@ == Map::<Seq<char>, Seq<EntryView>>::empty(),
    {
        let r = ListingCache { dirs: Vec::new() };
        proof {
            assert(keys_of(r.dirs@) =~= Seq::<Seq<char>>::empty());
        }
        r
    }

    fn index_of(&self, dir: &str) -> (r: Option<usize>)
        ensures
            match r {
                Some(i) => i < self.dirs@.len() && self.dirs@[i as int].0@ == dir@,
                None => !keys_of(self.dirs@).contains(dir@),
            },
    {
        let mut i: usize = 0;
        while i < self.dirs.len()
            invariant
                i <= self.dirs@.len(),
                forall|j: int| 0 <= j < i ==> keys_of(self.dirs@)[j] != dir@,
            decreases self.dirs.len() - i,
        {
            if str_eq(self.dirs[i].0.as_str(), dir) {
                return Some(i);
            }
            i += 1;
        }
        None
    }

    /// The listing of `dir`, if it has been received.
    pub fn get(&self, dir: &str) -> (r: Option<&Vec<FsEntry>>)
        requires
            self.well_formed(),
        ensures
            match r {
                Some(v) => self@.contains_key(dir@) && self@[dir@] == entries_view(v@),
                None => !self@.contains_key(dir@),
            },
    {
        proof {
            lemma_map_of_keys(self.dirs@, dir@);
        }
        match self.index_of(dir) {
            Some(i) => {
                proof {
                    lemma_map_of(self.dirs@, i as int);
                }
                Some(&self.dirs[i].1)
            },
            None => None,
        }
    }

    /// Store (or replace) the listing of `dir`.
    pub fn insert(&mut self, dir: String, entries: Vec<FsEntry>)
        requires
            old(self).well_formed(),
        ensures
            final(self).well_formed(),
            final(self)@ == old(self)@.insert(dir@, entries_view(entries@)),
    {
        let ghost before = self.dirs@;
        let ghost d = dir@;
        let ghost ev = entries_view(entries@);
        proof {
            lemma_map_of_keys(before, d);
        }
        match self.index_of(dir.as_str()) {
            Some(i) => {
                let mut old_dirs: Vec<(String, Vec<FsEntry>)> = Vec::new();
                std::mem::swap(&mut old_dirs, &mut self.dirs);
                let n = old_dirs.len();
                let mut rest = old_dirs;
                let mut kept: Vec<(String, Vec<FsEntry>)> = Vec::new();
                let mut pending = Some((dir, entries));
                let mut j: usize = 0;
                while rest.len() > 0
                    invariant
                        j + rest@.len() == n,
                        n == before.len(),
                        i < n,
                        before[i as int].0@ == d,
                        rest@ == before.skip(j as int),
                        kept@.len() == j,
                        pending is Some <==> j <= i,
                        pending matches Some(pv) ==> pv.0@ == d && entries_view(pv.1@) == ev,
                        forall|k: int| 0 <= k < j && k != i ==> #[trigger] kept@[k] == before[k],
                        j > i ==> kept@[i as int].0@ == d && entries_view(kept@[i as int].1@) == ev,
                    decreases rest.len(),
                {
                    let item = rest.remove(0);
                    proof {
                        assert(rest@ =~= before.skip(j + 1));
                    }
                    if j == i {
                        let pv = pending.take().unwrap();
                        kept.push(pv);
                    } else {
                        kept.push(item);
                    }
                    j += 1;
                }
                self.dirs = kept;
                proof {
                    lemma_replace(before, self.dirs@, i as int, d, ev);
                }
            },
            None => {
                self.dirs.push((dir, entries));
                proof {
                    let after = self.dirs@;
                    assert(after.drop_last() =~= before);
                    assert(keys_of(after) =~= keys_of(before).push(d));
                    assert(keys_of(after).no_duplicates()) by {
                        assert forall|a: int, b: int| 0 <= a < keys_of(after).len() && 0 <= b < keys_of(after).len() && a != b implies keys_of(after)[a] != keys_of(after)[b] by {
                            if a == before.len() {
                                assert(keys_of(before)[b] != d);
                            } else if b == before.len() {
                                assert(keys_of(before)[a] != d);
                            } else {
                                assert(keys_of(after)[a] == keys_of(before)[a]);
                                assert(keys_of(after)[b] == keys_of(before)[b]);
                            }
                        }
                    }
                }
            },
        }
    }
}

/// The kind the explorer reports for an entry: folder symlinks count as
/// folders.
pub open spec fn reported_kind(e: EntryView) -> FsKind {
    if is_dir_spec(e) {
        FsKind::Dir
    } else {
        e.kind
    }
}

/// The listings flattened in storage order.
pub open spec fn all_entries(dirs: Seq<(String, Vec<FsEntry>)>) -> Seq<EntryView>
    decreases dirs.len(),
{
    if dirs.len() == 0 {
        Seq::empty()
    } else {
        all_entries(dirs.drop_last()) + entries_view(dirs.last().1@)
    }
}

proof fn lemma_all_entries(dirs: Seq<(String, Vec<FsEntry>)>, e: EntryView)
    requires
        keys_of(dirs).no_duplicates(),
    ensures
        all_entries(dirs).contains(e) == exists|d: Seq<char>|
            #[trigger] map_of(dirs).contains_key(d) && map_of(dirs)[d].contains(e),
    decreases dirs.len(),
{
    if dirs.len() > 0 {
        let t = dirs.drop_last();
        assert(keys_of(t).no_duplicates()) by {
            assert forall|a: int, b: int| 0 <= a < keys_of(t).len() && 0 <= b < keys_of(t).len() && a != b implies keys_of(t)[a] != keys_of(t)[b] by {
                assert(keys_of(t)[a] == keys_of(dirs)[a] && keys_of(t)[b] == keys_of(dirs)[b]);
            }
        }
        lemma_all_entries(t, e);
        let last = entries_view(dirs.last().1@);
        let dl = dirs.last().0@;
        let a = all_entries(t);
        lemma_map_of_keys(t, dl);
        assert(!keys_of(t).contains(dl)) by {
            if keys_of(t).contains(dl) {
                let j = choose|j: int| 0 <= j < keys_of(t).len() && keys_of(t)[j] == dl;
                assert(keys_of(dirs)[j] == keys_of(dirs)[dirs.len() - 1]);
            }
        }
        if (a + last).contains(e) {
            let j = choose|j: int| 0 <= j < (a + last).len() && (a + last)[j] == e;
            if j < a.len() {
                assert(a[j] == e);
                let d = choose|d: Seq<char>| #[trigger] map_of(t).contains_key(d) && map_of(t)[d].contains(e);
                assert(d != dl);
                assert(map_of(dirs).contains_key(d) && map_of(dirs)[d] == map_of(t)[d]);
            } else {
                assert(last[j - a.len()] == e);
                assert(map_of(dirs).contains_key(dl) && map_of(dirs)[dl] == last);
            }
        }
        if exists|d: Seq<char>| #[trigger] map_of(dirs).contains_key(d) && map_of(dirs)[d].contains(e) {
            let d = choose|d: Seq<char>| #[trigger] map_of(dirs).contains_key(d) && map_of(dirs)[d].contains(e);
            if d == dl {
                let j = choose|j: int| 0 <= j < last.len() && last[j] == e;
                assert((a + last)[a.len() + j] == e);
            } else {
                assert(map_of(t).contains_key(d) && map_of(t)[d] == map_of(dirs)[d]);
                let j = choose|j: int| 0 <= j < a.len() && a[j] == e;
                assert((a + last)[j] == e);
            }
        }
    }
}

/// Some listing holds an entry at this path that reports this kind.
pub open spec fn listed(m: Map<Seq<char>, Seq<EntryView>>, pk: (Seq<char>, FsKind)) -> bool {
    exists|d: Seq<char>, e: EntryView|
        m.contains_key(d) && #[trigger] m[d].contains(e) && e.path == pk.0 && reported_kind(e) == pk.1
}

pub open spec fn kinds_view(v: Seq<(String, FsKind)>) -> Seq<(Seq<char>, FsKind)> {
    v.map_values(|p: (String, FsKind)| (p.0@, p.1))
}

impl ListingCache {
    /// Path → kind for every cached entry, folder symlinks reported as
    /// folders. A path listed twice appears twice.
    pub fn entry_kinds(&self) -> (r: Vec<(String, FsKind)>)
        requires
            self.well_formed(),
        ensures
            forall|i: int| 0 <= i < r@.len() ==> #[trigger] listed(self@, kinds_view(r@)[i]),
            forall|d: Seq<char>, e: EntryView|
                self@.contains_key(d) && #[trigger] self@[d].contains(e) ==> kinds_view(r@).contains(
                    (e.path, reported_kind(e)),
                ),
    {
        let ghost all = all_entries(self.dirs@);
        let mut out: Vec<(String, FsKind)> = Vec::new();
        let mut k: usize = 0;
        proof {
            assert(self.dirs@.take(0) =~= Seq::<(String, Vec<FsEntry>)>::empty());
        }
        while k < self.dirs.len()
            invariant
                k <= self.dirs@.len(),
                kinds_view(out@) == all_entries(self.dirs@.take(k as int)).map_values(
                    |e: EntryView| (e.path, reported_kind(e)),
                ),
            decreases self.dirs.len() - k,
        {
            let entries = &self.dirs[k].1;
            let ghost start = kinds_view(out@);
            let mut m: usize = 0;
            while m < entries.len()
                invariant
                    m <= entries@.len(),
                    entries == &self.dirs@[k as int].1,
                    kinds_view(out@) == start + entries_view(entries@).take(m as int).map_values(
                        |e: EntryView| (e.path, reported_kind(e)),
                    ),
                decreases entries.len() - m,
            {
                let e = &entries[m];
                let kind = if is_dir_entry(e) {
                    FsKind::Dir
                } else {
                    e.kind
                };
                let ghost prev = kinds_view(out@);
                out.push((string_of(&chars_of(e.path.as_str())), kind));
                proof {
                    assert(kinds_view(out@) =~= prev.push((e@.path, reported_kind(e@))));
                    assert(entries_view(entries@).take(m + 1) =~= entries_view(entries@).take(m as int).push(e@));
                    assert(kinds_view(out@) =~= start + entries_view(entries@).take(m + 1).map_values(
                        |e: EntryView| (e.path, reported_kind(e)),
                    ));
                }
                m += 1;
            }
            proof {
                assert(entries_view(entries@).take(m as int) =~= entries_view(entries@));
                assert(self.dirs@.take(k + 1).drop_last() =~= self.dirs@.take(k as int));
                assert(all_entries(self.dirs@.take(k + 1)).map_values(|e: EntryView| (e.path, reported_kind(e)))
                    =~= all_entries(self.dirs@.take(k as int)).map_values(|e: EntryView| (e.path, reported_kind(e)))
                    + entries_view(entries@).map_values(|e: EntryView| (e.path, reported_kind(e))));
            }
            k += 1;
        }
        proof {
            assert(self.dirs@.take(k as int) =~= self.dirs@);
            assert(kinds_view(out@) == all.map_values(|e: EntryView| (e.path, reported_kind(e))));
            assert(kinds_view(out@).len() == all.len());
            assert forall|i: int| 0 <= i < out@.len() implies #[trigger] listed(self@, kinds_view(out@)[i]) by {
                let e = all[i];
                assert(all.contains(e));
                lemma_all_entries(self.dirs@, e);
                let d = choose|d: Seq<char>| #[trigger] map_of(self.dirs@).contains_key(d) && map_of(self.dirs@)[d].contains(e);
                assert(self@.contains_key(d) && self@[d].contains(e) && kinds_view(out@)[i] == (e.path, reported_kind(e)));
            }
            assert forall|d: Seq<char>, e: EntryView| self@.contains_key(d) && #[trigger] self@[d].contains(e) implies kinds_view(out@).contains(
                (e.path, reported_kind(e))) by {
                lemma_all_entries(self.dirs@, e);
                let j = choose|j: int| 0 <= j < all.len() && all[j] == e;
                assert(kinds_view(out@)[j] == (e.path, reported_kind(e)));
            }
        }
        out
    }
}

/// Most paths the go-to box offers.
pub const GOTO_LIMIT: usize = 12;

/// Whether a cached entry answers a go-to query `q` (already trimmed and
/// lowercased): a file or symlink whose lowercased path or name contains `q`.
/// An empty query matches every file and symlink.
pub open spec fn goto_hit(e: EntryView, q: Seq<char>) -> bool {
    &&& (e.kind == FsKind::File || e.kind == FsKind::Symlink)
    &&& (q.len() == 0 || contains_seq(lowercase(e.path), q) || contains_seq(
        lowercase(e.name),
        q,
    ))
}

/// Paths of the entries of `entries` that answer `q`, in order.
pub open spec fn goto_hits(entries: Seq<EntryView>, q: Seq<char>) -> Seq<Seq<char>>
    decreases entries.len(),
{
    if entries.len() == 0 {
        Seq::empty()
    } else if goto_hit(entries.last(), q) {
        goto_hits(entries.drop_last(), q).push(entries.last().path)
    } else {
        goto_hits(entries.drop_last(), q)
    }
}

/// The go-to answer: matching paths in string order, at most [`GOTO_LIMIT`].
pub open spec fn goto_answer(entries: Seq<EntryView>, query: Seq<char>) -> Seq<Seq<char>> {
    let sorted = goto_hits(entries, lowercase(trim(query))).sort_by(chars_leq());
    if sorted.len() <= GOTO_LIMIT {
        sorted
    } else {
        sorted.take(GOTO_LIMIT as int)
    }
}

impl ListingCache {
    /// Every cached entry, once for each listing that holds it.
    pub closed spec fn entries(&self) -> Seq<EntryView> {
        all_entries(self.dirs@)
    }

    /// [`entries`](Self::entries) holds exactly what the listings hold.
    pub proof fn lemma_entries_listed(&self, e: EntryView)
        requires
            self.well_formed(),
        ensures
            self.entries().contains(e) <==> exists|d: Seq<char>|
                #[trigger] self@.contains_key(d) && self@[d].contains(e),
    {
        lemma_all_entries(self.dirs@, e);
        let m = map_of(self.dirs@);
        assert(self@ == m);
        if self.entries().contains(e) {
            let d = choose|d: Seq<char>| #[trigger] m.contains_key(d) && m[d].contains(e);
            assert(self@.contains_key(d) && self@[d].contains(e));
        }
        if exists|d: Seq<char>| #[trigger] self@.contains_key(d) && self@[d].contains(e) {
            let d = choose|d: Seq<char>| #[trigger] self@.contains_key(d) && self@[d].contains(e);
            assert(m.contains_key(d) && m[d].contains(e));
        }
    }

    /// Paths for the go-to box: cached files and symlinks whose lowercased
    /// path or name contains the trimmed, lowercased query, sorted, at most
    /// [`GOTO_LIMIT`] of them.
    pub fn goto_matches(&self, query: &str) -> (r: Vec<String>)
        ensures
            strings_view(r@) == goto_answer(self.entries(), query@),
    {
        let trimmed = string_of(&trim_str(query));
        let q = chars_of(lower(trimmed.as_str()).as_str());
        let ghost qv = lowercase(trim(query@));
        let mut paths: Vec<String> = Vec::new();
        let mut k: usize = 0;
        proof {
            assert(self.dirs@.take(0) =~= Seq::<(String, Vec<FsEntry>)>::empty());
            assert(strings_view(paths@) =~= Seq::<Seq<char>>::empty());
        }
        while k < self.dirs.len()
            invariant
                k <= self.dirs@.len(),
                q@ == qv,
                strings_view(paths@) == goto_hits(all_entries(self.dirs@.take(k as int)), qv),
            decreases self.dirs.len() - k,
        {
            let entries = &self.dirs[k].1;
            let ghost start = all_entries(self.dirs@.take(k as int));
            let mut m: usize = 0;
            proof {
                assert(start + entries_view(entries@).take(0) =~= start);
            }
            while m < entries.len()
                invariant
                    m <= entries@.len(),
                    entries == &self.dirs@[k as int].1,
                    q@ == qv,
                    strings_view(paths@) == goto_hits(start + entries_view(entries@).take(m as int), qv),
                decreases entries.len() - m,
            {
                let e = &entries[m];
                let ghost prev = strings_view(paths@);
                let kind_ok = match e.kind {
                    FsKind::File | FsKind::Symlink => true,
                    _ => false,
                };
                let hit = if kind_ok {
                    let path = chars_of(lower(e.path.as_str()).as_str());
                    let name = chars_of(lower(e.name.as_str()).as_str());
                    q.len() == 0 || contains_chars(&path, &q) || contains_chars(&name, &q)
                } else {
                    false
                };
                let ghost seen = start + entries_view(entries@).take(m + 1);
                proof {
                    assert(seen.drop_last() =~= start + entries_view(entries@).take(m as int));
                    assert(seen.last() == e@);
                    assert(hit == goto_hit(e@, qv));
                }
                if hit {
                    paths.push(e.path.clone());
                    proof {
                        assert(strings_view(paths@) =~= prev.push(e@.path));
                    }
                }
                m += 1;
            }
            proof {
                assert(entries_view(entries@).take(m as int) =~= entries_view(entries@));
                assert(self.dirs@.take(k + 1).drop_last() =~= self.dirs@.take(k as int));
            }
            k += 1;
        }
        proof {
            assert(self.dirs@.take(k as int) =~= self.dirs@);
        }
        let mut sorted = sort_strings(paths);
        if sorted.len() > GOTO_LIMIT {
            sorted.truncate(GOTO_LIMIT);
            proof {
                assert(strings_view(sorted@) =~= goto_hits(self.entries(), qv).sort_by(chars_leq()).take(
                    GOTO_LIMIT as int,
                ));
            }
        }
        sorted
    }
}

/// A listing keyed by the path that was asked for: when the daemon answered
/// with another (canonical) directory, the entries are re-parented under the
/// requested path with its own separator.
pub open spec fn rebase_spec(requested: Seq<char>, returned: Seq<char>, entries: Seq<EntryView>) -> (
    Seq<char>,
    Seq<EntryView>,
) {
    if requested.len() == 0 || requested == returned {
        (returned, entries)
    } else {
        let backslash = requested.contains('\\') && !requested.contains('/');
        let sep = if backslash {
            '\\'
        } else {
            '/'
        };
        let base = strip_end(
            requested,
            if backslash {
                CharSet::Backslash
            } else {
                CharSet::Slash
            },
        );
        (
            requested,
            entries.map_values(
                |e: EntryView|
                    EntryView {
                        name: e.name,
                        path: base.push(sep) + e.name,
                        kind: e.kind,
                        size: e.size,
                        target_kind: e.target_kind,
                    },
            ),
        )
    }
}

/// The daemon answers a listing with the canonical directory, so listing a
/// folder symlink returns the target's path and children. Key the listing by
/// the path the tree asked for and re-parent the children under it.
pub fn rebase_listing(requested: &str, returned: &str, entries: Vec<FsEntry>) -> (r: (
    String,
    Vec<FsEntry>,
))
    ensures
        (r.0@, entries_view(r.1@)) == rebase_spec(requested@, returned@, entries_view(entries@)),
{
    let req = chars_of(requested);
    if req.len() == 0 || str_eq(requested, returned) {
        return (string_of(&chars_of(returned)), entries);
    }
    let backslash = contains_char(&req, '\\') && !contains_char(&req, '/');
    let sep = if backslash {
        '\\'
    } else {
        '/'
    };
    let set = if backslash {
        CharSet::Backslash
    } else {
        CharSet::Slash
    };
    proof {
        assert(req@.subrange(0, req@.len() as int) =~= req@);
    }
    let end = drop_trailing(&req, 0, req.len(), set);
    let mut base = crate::text::slice_vec(&req, 0, end);
    base.push(sep);
    let ghost ev = entries_view(entries@);
    let ghost expected = rebase_spec(requested@, returned@, ev).1;
    let n = entries.len();
    let mut rest = entries;
    let mut out: Vec<FsEntry> = Vec::new();
    let mut j: usize = 0;
    while rest.len() > 0
        invariant
            j + rest@.len() == n,
            n == ev.len(),
            entries_view(rest@) == ev.skip(j as int),
            entries_view(out@) == expected.take(j as int),
            expected.len() == n,
            base@ == strip_end(requested@, set).push(sep),
            expected == rebase_spec(requested@, returned@, ev).1,
            ev.len() > 0 ==> expected == ev.map_values(
                |e: EntryView|
                    EntryView {
                        name: e.name,
                        path: base@ + e.name,
                        kind: e.kind,
                        size: e.size,
                        target_kind: e.target_kind,
                    },
            ),
        decreases rest.len(),
    {
        let ghost r0 = rest@;
        let e = rest.remove(0);
        proof {
            assert(e@ == ev[j as int]) by {
                assert(entries_view(r0)[0] == ev.skip(j as int)[0]);
            }
            assert forall|i: int| 0 <= i < rest@.len() implies entries_view(rest@)[i] == ev.skip(j + 1)[i] by {
                assert(rest@[i] == r0[i + 1]);
                assert(entries_view(r0)[i + 1] == ev.skip(j as int)[i + 1]);
            }
            assert(entries_view(rest@) =~= ev.skip(j + 1));
        }
        let path = string_of(&concat(&base, &chars_of(e.name.as_str())));
        let moved = FsEntry {
            name: e.name,
            path,
            kind: e.kind,
            size: e.size,
            target_kind: e.target_kind,
        };
        let ghost prev = entries_view(out@);
        out.push(moved);
        proof {
            assert(entries_view(out@) =~= prev.push(expected[j as int]));
            assert(expected.take(j + 1) =~= expected.take(j as int).push(expected[j as int]));
        }
        j += 1;
    }
    proof {
        assert(expected.take(j as int) =~= expected);
    }
    (string_of(&req), out)
}

/// An open folder stays open unless its parent has been listed without it.
pub open spec fn still_listed(cache: Map<Seq<char>, Seq<EntryView>>, dir: Seq<char>) -> bool {
    match parent_dir_spec(dir) {
        None => true,
        Some(p) => !cache.contains_key(p) || exists|k: int|
            0 <= k < cache[p].len() && #[trigger] cache[p][k].path == dir,
    }
}

fn keep_open(cache: &ListingCache, dir: &str) -> (r: bool)
    requires
        cache.well_formed(),
    ensures
        r == still_listed(cache@, dir@),
{
    let parent = match parent_dir(dir) {
        Some(p) => p,
        None => {
            return true;
        },
    };
    match cache.get(parent.as_str()) {
        None => true,
        Some(entries) => {
            let mut k: usize = 0;
            while k < entries.len()
                invariant
                    k <= entries@.len(),
                    parent_dir_spec(dir@) == Some(parent@),
                    cache@.contains_key(parent@),
                    cache@[parent@] == entries_view(entries@),
                    forall|j: int| 0 <= j < k ==> #[trigger] cache@[parent@][j].path != dir@,
                decreases entries.len() - k,
            {
                if str_eq(entries[k].path.as_str(), dir) {
                    proof {
                        assert(cache@[parent@][k as int].path == dir@);
                    }
                    return true;
                }
                proof {
                    assert(cache@[parent@][k as int] == entries@[k as int]@);
                }
                k += 1;
            }
            false
        },
    }
}

/// Drop open folders that their (listed) parent no longer contains, so a
/// deleted or renamed directory does not stay open forever. Folders whose
/// parent has not been listed yet are kept.
pub fn prune_expanded(expanded: &mut ExpandedSet, cache: &ListingCache)
    requires
        old(expanded).well_formed(),
        cache.well_formed(),
    ensures
        final(expanded).well_formed(),
        final(expanded)@ == old(expanded)@.filter(|d: Seq<char>| still_listed(cache@, d)),
{
    let ghost keep = |d: Seq<char>| still_listed(cache@, d);
    let paths = expanded.paths();
    let ghost pv = paths.deep_view();
    let mut next = ExpandedSet::new();
    let mut i: usize = 0;
    proof {
        assert(pv.take(0).to_set().filter(keep) =~= Set::<Seq<char>>::empty());
    }
    while i < paths.len()
        invariant
            i <= paths@.len(),
            pv == paths.deep_view(),
            next.well_formed(),
            cache.well_formed(),
            next@ == pv.take(i as int).to_set().filter(keep),
            keep == (|d: Seq<char>| still_listed(cache@, d)),
        decreases paths.len() - i,
    {
        let p = paths[i].as_str();
        let ghost before = next@;
        proof {
            assert(pv[i as int] == p@);
            assert(pv.take(i + 1) =~= pv.take(i as int).push(p@));
            assert(pv.take(i + 1).to_set() =~= pv.take(i as int).to_set().insert(p@)) by {
                assert forall|x: Seq<char>| pv.take(i + 1).to_set().contains(x) <==> pv.take(i as int).to_set().insert(p@).contains(x) by {
                    let t = pv.take(i as int);
                    let u = pv.take(i + 1);
                    if u.contains(x) {
                        let j = choose|j: int| 0 <= j < u.len() && #[trigger] u[j] == x;
                        if j < i {
                            assert(t[j] == x);
                        }
                    }
                    if t.contains(x) {
                        let j = choose|j: int| 0 <= j < t.len() && #[trigger] t[j] == x;
                        assert(u[j] == x);
                    }
                    if x == p@ {
                        assert(u[i as int] == x);
                    }
                }
            }
        }
        if keep_open(cache, p) {
            next.insert(p);
            proof {
                assert(next@ =~= pv.take(i + 1).to_set().filter(keep));
            }
        } else {
            proof {
                assert(before =~= pv.take(i + 1).to_set().filter(keep));
            }
        }
        i += 1;
    }
    proof {
        assert(pv.take(i as int) =~= pv);
    }
    *expanded = next;
}

/// A row of the explorer tree: its id (the entry's path, or `{path}/.` for
/// the placeholder of a folder not listed yet), its label, its child rows and
/// whether it is shown open.
#[derive(Debug)]
pub struct TreeNode {
    pub id: String,
    pub label: String,
    pub children: Vec<TreeNode>,
    pub expanded: bool,
}

impl TreeNode {
    /// A row with children shows a chevron.
    pub fn is_folder(&self) -> (r: bool)
        ensures
            r == (self.children@.len() > 0),
    {
        self.children.len() > 0
    }

    pub fn is_expanded(&self) -> (r: bool)
        ensures
            r == self.expanded,
    {
        self.expanded
    }
}

pub struct NodeView {
    pub id: Seq<char>,
    pub label: Seq<char>,
    pub children: Seq<NodeView>,
    pub expanded: bool,
}

pub open spec fn node_view(n: TreeNode) -> NodeView
    decreases n,
{
    NodeView { id: n.id@, label: n.label@, children: nodes_view(n.children@, n.children@.len() as int), expanded: n.expanded }
}

/// Views of the first `k` rows.
pub open spec fn nodes_view(s: Seq<TreeNode>, k: int) -> Seq<NodeView>
    decreases s, k,
{
    if k <= 0 || k > s.len() {
        Seq::empty()
    } else {
        nodes_view(s, k - 1).push(node_view(s[k - 1]))
    }
}

proof fn lemma_nodes_view_push(s: Seq<TreeNode>, x: TreeNode, k: int)
    requires
        0 <= k <= s.len(),
    ensures
        nodes_view(s.push(x), k) == nodes_view(s, k),
    decreases k,
{
    if k > 0 {
        lemma_nodes_view_push(s, x, k - 1);
        assert(s.push(x)[k - 1] == s[k - 1]);
    }
}

/// The lowercased name filter; no filter is the empty one.
pub open spec fn needle_of(filter: Option<Seq<char>>) -> Seq<char> {
    lowercase(
        match filter {
            Some(f) => f,
            None => Seq::empty(),
        },
    )
}

/// An entry passes the filter when the filter is empty or its lowercased
/// name contains it.
pub open spec fn name_passes(e: EntryView, needle: Seq<char>) -> bool {
    needle.len() == 0 || contains_seq(lowercase(e.name), needle)
}

/// The stand-in child of a folder that has not been listed yet.
pub open spec fn placeholder_node(path: Seq<char>) -> NodeView {
    NodeView { id: path + "/."@, label: "\u{2026}"@, children: Seq::empty(), expanded: false }
}

/// The rows for folder `root`: its listed entries that pass `filter`, in
/// listing order; nothing when `root` is not listed. Folders list their
/// own listing below them, unfiltered. `bound` caps the walk at the
/// longest listed path.
pub open spec fn tree_layer(
    m: Map<Seq<char>, Seq<EntryView>>,
    root: Seq<char>,
    expanded: Set<Seq<char>>,
    filter: Option<Seq<char>>,
    bound: int,
) -> Seq<NodeView>
    decreases bound - root.len(), m[root].len() + 1,
{
    if m.contains_key(root) {
        layer_from(m, root, m[root].len() as int, expanded, needle_of(filter), bound)
    } else {
        Seq::empty()
    }
}

/// Rows for the first `k` entries of `root`'s listing.
pub open spec fn layer_from(
    m: Map<Seq<char>, Seq<EntryView>>,
    root: Seq<char>,
    k: int,
    expanded: Set<Seq<char>>,
    needle: Seq<char>,
    bound: int,
) -> Seq<NodeView>
    decreases bound - root.len(), k,
{
    if k <= 0 || !m.contains_key(root) || k > m[root].len() {
        Seq::empty()
    } else {
        let rest = layer_from(m, root, k - 1, expanded, needle, bound);
        if name_passes(m[root][k - 1], needle) {
            rest.push(entry_node(m, root, m[root][k - 1], expanded, bound))
        } else {
            rest
        }
    }
}

/// The row of entry `e` of folder `root`. A folder that is listed holds its
/// listing (the walk only goes to longer paths); one that is not holds a
/// placeholder, so it still shows as a folder.
pub open spec fn entry_node(
    m: Map<Seq<char>, Seq<EntryView>>,
    root: Seq<char>,
    e: EntryView,
    expanded: Set<Seq<char>>,
    bound: int,
) -> NodeView
    decreases bound - root.len(), 0int,
{
    if is_dir_spec(e) {
        let children = if m.contains_key(e.path) {
            if root.len() < e.path.len() && e.path.len() <= bound {
                tree_layer(m, e.path, expanded, None, bound)
            } else {
                Seq::empty()
            }
        } else {
            seq![placeholder_node(e.path)]
        };
        NodeView { id: e.path, label: e.name, children, expanded: expanded.contains(e.path) }
    } else {
        NodeView { id: e.path, label: e.name, children: Seq::empty(), expanded: false }
    }
}

/// Every listed entry's path is longer than its folder's, as listings give
/// them (a child's path extends its parent's).
pub open spec fn paths_grow(m: Map<Seq<char>, Seq<EntryView>>) -> bool {
    forall|d: Seq<char>, i: int|
        m.contains_key(d) && 0 <= i < m[d].len() ==> (#[trigger] m[d][i]).path.len() > d.len()
}

/// When child paths extend their folder's, a listed folder's row holds its
/// whole listing: the length cap of the walk never cuts it short.
pub proof fn listed_folders_hold_their_listing(
    cache: &ListingCache,
    root: Seq<char>,
    e: EntryView,
    expanded: Set<Seq<char>>,
)
    requires
        cache.well_formed(),
        paths_grow(cache@),
        cache@.contains_key(root),
        cache@[root].contains(e),
        is_dir_spec(e),
        cache@.contains_key(e.path),
    ensures
        entry_node(cache@, root, e, expanded, cache.key_bound()).children == tree_layer(
            cache@,
            e.path,
            expanded,
            None,
            cache.key_bound(),
        ),
{
    let i = choose|i: int| 0 <= i < cache@[root].len() && cache@[root][i] == e;
    assert(cache@[root][i].path.len() > root.len());
    cache.lemma_key_bound(e.path);
}

/// Length of the longest key.
pub open spec fn max_key_len(dirs: Seq<(String, Vec<FsEntry>)>) -> int
    decreases dirs.len(),
{
    if dirs.len() == 0 {
        0
    } else {
        let a = max_key_len(dirs.drop_last());
        let b = dirs.last().0@.len() as int;
        if a >= b {
            a
        } else {
            b
        }
    }
}

proof fn lemma_max_key_len(dirs: Seq<(String, Vec<FsEntry>)>, k: Seq<char>)
    ensures
        max_key_len(dirs) >= 0,
        keys_of(dirs).contains(k) ==> k.len() <= max_key_len(dirs),
    decreases dirs.len(),
{
    if dirs.len() > 0 {
        let t = dirs.drop_last();
        lemma_max_key_len(t, k);
        if keys_of(dirs).contains(k) && k != dirs.last().0@ {
            let j = choose|j: int| 0 <= j < keys_of(dirs).len() && keys_of(dirs)[j] == k;
            assert(j < dirs.len() - 1);
            assert(keys_of(t)[j] == k);
        }
    }
}

fn placeholder(path: &String) -> (r: TreeNode)
    ensures
        node_view(r) == placeholder_node(path@),
{
    let id = string_of(&concat(&chars_of(path.as_str()), &chars_of("/.")));
    let label = string_of(&chars_of("\u{2026}"));
    let r = TreeNode { id, label, children: Vec::new(), expanded: false };
    proof {
        assert(nodes_view(r.children@, 0) =~= Seq::<NodeView>::empty());
    }
    r
}

impl ListingCache {
    /// The length of the longest listed folder path.
    pub closed spec fn key_bound(&self) -> int {
        max_key_len(self.dirs@)
    }

    /// No listed folder path is longer than [`key_bound`](Self::key_bound).
    pub proof fn lemma_key_bound(&self, d: Seq<char>)
        ensures
            self@.contains_key(d) ==> d.len() <= self.key_bound(),
    {
        lemma_map_of_keys(self.dirs@, d);
        lemma_max_key_len(self.dirs@, d);
    }

    fn max_key_len(&self) -> (r: usize)
        ensures
            r == self.key_bound(),
    {
        let mut best: usize = 0;
        let mut k: usize = 0;
        proof {
            assert(self.dirs@.take(0) =~= Seq::<(String, Vec<FsEntry>)>::empty());
        }
        while k < self.dirs.len()
            invariant
                k <= self.dirs@.len(),
                best == max_key_len(self.dirs@.take(k as int)),
            decreases self.dirs.len() - k,
        {
            let n = chars_of(self.dirs[k].0.as_str()).len();
            proof {
                assert(self.dirs@.take(k + 1).drop_last() =~= self.dirs@.take(k as int));
            }
            if n > best {
                best = n;
            }
            k += 1;
        }
        proof {
            assert(self.dirs@.take(k as int) =~= self.dirs@);
        }
        best
    }

    fn layer(&self, root: &str, expanded: &ExpandedSet, filter: Option<&str>, bound: usize) -> (r: Vec<TreeNode>)
        requires
            self.well_formed(),
        ensures
            nodes_view(r@, r@.len() as int) == tree_layer(self@, root@, expanded@, opt_str(filter), bound as int),
        decreases bound - root@.len(), self@[root@].len() + 1,
    {
        let entries = match self.get(root) {
            Some(v) => v,
            None => {
                proof {
                    assert(nodes_view(Seq::<TreeNode>::empty(), 0) =~= Seq::<NodeView>::empty());
                }
                return Vec::new();
            },
        };
        let ghost m = self@;
        let source = match filter {
            Some(f) => f,
            None => "",
        };
        let needle = chars_of(lower(source).as_str());
        proof {
            reveal_strlit("");
            assert(source@ == match opt_str(filter) {
                Some(f) => f,
                None => Seq::<char>::empty(),
            });
        }
        let mut out: Vec<TreeNode> = Vec::new();
        let mut k: usize = 0;
        proof {
            assert(nodes_view(out@, 0) =~= Seq::<NodeView>::empty());
        }
        while k < entries.len()
            invariant
                self.well_formed(),
                m == self@,
                m.contains_key(root@),
                m[root@] == entries_view(entries@),
                k <= entries@.len(),
                needle@ == needle_of(opt_str(filter)),
                nodes_view(out@, out@.len() as int) == layer_from(m, root@, k as int, expanded@, needle@, bound as int),
            decreases entries.len() - k,
        {
            let e = &entries[k];
            proof {
                assert(m[root@][k as int] == e@);
            }
            let pass = if needle.len() == 0 {
                true
            } else {
                let name = chars_of(lower(e.name.as_str()).as_str());
                contains_chars(&name, &needle)
            };
            if pass {
                let node = self.entry_node(root, e, expanded, bound);
                let ghost before = out@;
                out.push(node);
                proof {
                    lemma_nodes_view_push(before, node, before.len() as int);
                }
            }
            k += 1;
        }
        out
    }

    fn entry_node(&self, root: &str, e: &FsEntry, expanded: &ExpandedSet, bound: usize) -> (r: TreeNode)
        requires
            self.well_formed(),
        ensures
            node_view(r) == entry_node(self@, root@, e@, expanded@, bound as int),
        decreases bound - root@.len(), 0int,
    {
        let id = string_of(&chars_of(e.path.as_str()));
        let label = string_of(&chars_of(e.name.as_str()));
        if is_dir_entry(e) {
            let children = match self.get(e.path.as_str()) {
                Some(_) => {
                    let plen = chars_of(e.path.as_str()).len();
                    let rlen = chars_of(root).len();
                    if rlen < plen && plen <= bound {
                        self.layer(e.path.as_str(), expanded, None, bound)
                    } else {
                        Vec::new()
                    }
                },
                None => {
                    let ph = placeholder(&e.path);
                    let v = vec![ph];
                    proof {
                        assert(nodes_view(v@, 0) =~= Seq::<NodeView>::empty());
                        assert(v@[0] == ph);
                    }
                    v
                },
            };
            let open = expanded.contains(e.path.as_str());
            let r = TreeNode { id, label, children, expanded: open };
            proof {
                if children@.len() == 0 {
                    assert(nodes_view(children@, 0) =~= Seq::<NodeView>::empty());
                }
            }
            r
        } else {
            let r = TreeNode { id, label, children: Vec::new(), expanded: false };
            proof {
                assert(nodes_view(r.children@, 0) =~= Seq::<NodeView>::empty());
            }
            r
        }
    }

    /// The explorer tree under `root`: its listed entries whose lowercased
    /// name contains the lowercased `filter` (all of them for an empty
    /// filter), each folder holding its own listing unfiltered, or a
    /// placeholder row while it has not been listed; folders in `expanded`
    /// show open. The walk only goes from a folder to longer paths, so it
    /// ends on any cache; for listings as the daemon sends them
    /// ([`paths_grow`]) that is every listed folder (see
    /// [`listed_folders_hold_their_listing`]).
    pub fn build_explorer_tree(&self, root: &str, expanded: &ExpandedSet, filter: &str) -> (r: Vec<TreeNode>)
        requires
            self.well_formed(),
        ensures
            nodes_view(r@, r@.len() as int) == tree_layer(self@, root@, expanded@, Some(filter@), self.key_bound()),
    {
        let bound = self.max_key_len();
        self.layer(root, expanded, Some(filter), bound)
    }
}

} // verus!
