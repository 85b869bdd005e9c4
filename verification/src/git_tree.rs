//! The source-control panel's tree of changed files: paths split into
//! segments, the folders that hold changes, and the rows the panel shows.

use vstd::prelude::*;

use crate::diff::{git_relative, git_relative_spec, join_repo, join_repo_spec};
use crate::paths::{display_path, display_path_spec};
use crate::strs::{clone_range, contains_str, strings_view};
use crate::workspace::{git_lookup_key, git_lookup_key_spec};
use crate::text::{
    chars_lt, chars_of, compare_chars, in_set, join, lemma_chars_lt_irreflexive, lemma_chars_lt_total,
    lemma_chars_lt_transitive, string_of, CharSet, Rank,
};

verus! {

/// A changed file as `git status --porcelain` reports it.
#[derive(Clone, Debug, PartialEq, Eq)]
pub struct GitFile {
    /// Path relative to the repository root.
    pub path: String,
    /// The two status letters (index, work tree).
    pub xy: String,
}

pub struct GitFileView {
    pub path: Seq<char>,
    pub xy: Seq<char>,
}

impl View for GitFile {
    type V = GitFileView;

    open spec fn view(&self) -> GitFileView {
        GitFileView { path: self.path@, xy: self.xy@ }
    }
}

pub open spec fn is_sep(c: char) -> bool {
    in_set(CharSet::PathSeparators, c)
}

/// Scanning state over a path: the non-empty segments completed so far and
/// the segment being read.
pub open spec fn scan(s: Seq<char>) -> (Seq<Seq<char>>, Seq<char>)
    decreases s.len(),
{
    if s.len() == 0 {
        (Seq::empty(), Seq::empty())
    } else {
        let (done, cur) = scan(s.drop_last());
        if is_sep(s.last()) {
            if cur.len() > 0 {
                (done.push(cur), Seq::empty())
            } else {
                (done, Seq::empty())
            }
        } else {
            (done, cur.push(s.last()))
        }
    }
}

/// The non-empty runs between `/` and `\` separators, in order.
pub open spec fn path_parts(s: Seq<char>) -> Seq<Seq<char>> {
    let (done, cur) = scan(s);
    if cur.len() > 0 {
        done.push(cur)
    } else {
        done
    }
}

pub open spec fn all_segments_ok(parts: Seq<Seq<char>>) -> bool {
    forall|i: int|
        0 <= i < parts.len() ==> #[trigger] parts[i].len() > 0 && forall|j: int|
            0 <= j < parts[i].len() ==> !is_sep(parts[i][j])
}

proof fn lemma_scan_ok(s: Seq<char>)
    ensures
        all_segments_ok(scan(s).0),
        forall|j: int| 0 <= j < scan(s).1.len() ==> !is_sep(#[trigger] scan(s).1[j]),
    decreases s.len(),
{
    if s.len() > 0 {
        lemma_scan_ok(s.drop_last());
    }
}

/// Path segments are non-empty and hold no separator.
pub proof fn path_parts_are_clean_segments(s: Seq<char>)
    ensures
        all_segments_ok(path_parts(s)),
{
    lemma_scan_ok(s);
}


/// `path.split(['/', '\\'])` without the empty pieces.
pub fn git_path_parts(path: &str) -> (r: Vec<String>)
    ensures
        strings_view(r@) == path_parts(path@),
{
    let v = chars_of(path);
    let mut done: Vec<String> = Vec::new();
    let mut cur: Vec<char> = Vec::new();
    let mut i: usize = 0;
    while i < v.len()
        invariant
            i <= v@.len(),
            (strings_view(done@), cur@) == scan(v@.take(i as int)),
        decreases v.len() - i,
    {
        let c = v[i];
        proof {
            assert(v@.take(i + 1).drop_last() =~= v@.take(i as int));
            assert(v@.take(i + 1).last() == c);
        }
        if c == '/' || c == '\\' {
            if cur.len() > 0 {
                let ghost prev = strings_view(done@);
                done.push(string_of(&cur));
                proof {
                    assert(strings_view(done@) =~= prev.push(cur@));
                }
                cur = Vec::new();
            }
        } else {
            cur.push(c);
        }
        i += 1;
    }
    proof {
        assert(v@.take(i as int) =~= v@);
    }
    if cur.len() > 0 {
        let ghost prev = strings_view(done@);
        done.push(string_of(&cur));
        proof {
            assert(strings_view(done@) =~= prev.push(cur@));
        }
    }
    done
}

/// `parts[..k]` joined with `/`.
pub fn join_prefix(parts: &Vec<String>, k: usize) -> (r: String)
    requires
        1 <= k <= parts@.len(),
    ensures
        r@ == join(strings_view(parts@).take(k as int), "/"@),
{
    let mut acc: Vec<char> = chars_of(parts[0].as_str());
    let mut i: usize = 1;
    proof {
        assert(strings_view(parts@).take(1) =~= seq![parts@[0]@]);
    }
    while i < k
        invariant
            1 <= i <= k <= parts@.len(),
            acc@ == join(strings_view(parts@).take(i as int), "/"@),
        decreases k - i,
    {
        let ghost before = acc@;
        acc.push('/');
        let seg = chars_of(parts[i].as_str());
        let mut j: usize = 0;
        while j < seg.len()
            invariant
                j <= seg@.len(),
                acc@ == before + seq!['/'] + seg@.take(j as int),
            decreases seg.len() - j,
        {
            acc.push(seg[j]);
            j += 1;
            proof {
                assert(seg@.take(j as int) =~= seg@.take(j - 1).push(seg@[j - 1]));
                assert(acc@ =~= before + seq!['/'] + seg@.take(j as int));
            }
        }
        i += 1;
        proof {
            reveal_strlit("/");
            let t = strings_view(parts@).take(i as int);
            assert(t.drop_last() =~= strings_view(parts@).take(i - 1));
            assert(seg@.take(j as int) =~= seg@);
            assert(acc@ =~= join(t.drop_last(), "/"@) + "/"@ + t.last());
        }
    }
    string_of(&acc)
}

/// The folder made of the first `k` segments of `path`, joined with `/`.
pub open spec fn dir_of(path: Seq<char>, k: int) -> Seq<char> {
    join(path_parts(path).take(k), "/"@)
}

/// Folder paths (joined with `/`) that hold at least one changed file.
pub open spec fn is_change_dir(files: Seq<GitFile>, d: Seq<char>) -> bool {
    exists|i: int, k: int|
        0 <= i < files.len() && 1 <= k < path_parts(files[i].path@).len() && d == #[trigger] dir_of(
            files[i].path@,
            k,
        )
}

/// Every folder that holds a change, once each, in no particular order.
pub fn git_dir_paths(files: &[GitFile]) -> (r: Vec<String>)
    ensures
        strings_view(r@).no_duplicates(),
        forall|d: Seq<char>| strings_view(r@).contains(d) <==> is_change_dir(files@, d),
{
    let mut dirs: Vec<String> = Vec::new();
    let mut i: usize = 0;
    while i < files.len()
        invariant
            i <= files@.len(),
            strings_view(dirs@).no_duplicates(),
            forall|d: Seq<char>| strings_view(dirs@).contains(d) <==> is_change_dir(files@.take(i as int), d),
        decreases files.len() - i,
    {
        let parts = git_path_parts(files[i].path.as_str());
        let ghost pv = path_parts(files@[i as int].path@);
        let mut k: usize = 1;
        while k < parts.len()
            invariant
                1 <= k,
                i < files@.len(),
                strings_view(parts@) == pv,
                pv == path_parts(files@[i as int].path@),
                strings_view(dirs@).no_duplicates(),
                forall|d: Seq<char>| strings_view(dirs@).contains(d) <==> (is_change_dir(files@.take(i as int), d)
                    || exists|k2: int| 1 <= k2 < k && k2 < pv.len() && d == #[trigger] dir_of(files@[i as int].path@, k2)),
            decreases parts.len() - k,
        {
            let d = join_prefix(&parts, k);
            let ghost prev = strings_view(dirs@);
            proof {
                assert(dirs.deep_view() =~= prev);
            }
            if !contains_str(&dirs, d.as_str()) {
                dirs.push(d);
                proof {
                    assert(strings_view(dirs@) =~= prev.push(d@));
                    assert forall|a: int, b: int| 0 <= a < b < strings_view(dirs@).len() implies strings_view(dirs@)[a] != strings_view(dirs@)[b] by {
                        if b == prev.len() {
                            assert(prev.contains(prev[a]));
                        }
                    }
                }
            }
            proof {
                assert(d@ == dir_of(files@[i as int].path@, k as int));
                assert(dirs.deep_view() =~= strings_view(dirs@));
                assert forall|e: Seq<char>| strings_view(dirs@).contains(e) <==> (is_change_dir(files@.take(i as int), e)
                    || exists|k2: int| 1 <= k2 < k + 1 && k2 < pv.len() && e == #[trigger] dir_of(files@[i as int].path@, k2)) by {
                    if e == d@ {
                        assert(strings_view(dirs@).contains(d@)) by {
                            if prev.contains(d@) {
                                let a = choose|a: int| 0 <= a < prev.len() && prev[a] == d@;
                                assert(strings_view(dirs@)[a] == d@);
                            } else {
                                assert(strings_view(dirs@)[prev.len() as int] == d@);
                            }
                        }
                    } else {
                        if strings_view(dirs@).contains(e) {
                            let a = choose|a: int| 0 <= a < strings_view(dirs@).len() && strings_view(dirs@)[a] == e;
                            assert(a < prev.len());
                            assert(prev.contains(e));
                        }
                        if prev.contains(e) {
                            let a = choose|a: int| 0 <= a < prev.len() && prev[a] == e;
                            assert(strings_view(dirs@)[a] == e);
                        }
                    }
                }
            }
            k += 1;
        }
        i += 1;
        proof {
            let fi = files@.take(i as int);
            let fp = files@.take(i - 1);
            assert forall|d: Seq<char>| is_change_dir(fi, d) <==> (is_change_dir(fp, d)
                || exists|k2: int| 1 <= k2 < pv.len() && k2 < pv.len() && d == #[trigger] dir_of(files@[i - 1].path@, k2)) by {
                if is_change_dir(fi, d) {
                    let (a, k2) = choose|a: int, k2: int|
                        0 <= a < fi.len() && 1 <= k2 < path_parts(fi[a].path@).len() && d == #[trigger] dir_of(fi[a].path@, k2);
                    if a < i - 1 {
                        assert(fp[a] == fi[a]);
                        assert(0 <= a < fp.len() && 1 <= k2 < path_parts(fp[a].path@).len() && d == dir_of(fp[a].path@, k2));
                    } else {
                        assert(fi[a] == files@[i - 1]);
                    }
                }
                if is_change_dir(fp, d) {
                    let (a, k2) = choose|a: int, k2: int|
                        0 <= a < fp.len() && 1 <= k2 < path_parts(fp[a].path@).len() && d == #[trigger] dir_of(fp[a].path@, k2);
                    assert(fi[a] == fp[a]);
                    assert(0 <= a < fi.len() && 1 <= k2 < path_parts(fi[a].path@).len() && d == dir_of(fi[a].path@, k2));
                }
                if exists|k2: int| 1 <= k2 < pv.len() && k2 < pv.len() && d == #[trigger] dir_of(files@[i - 1].path@, k2) {
                    let k2 = choose|k2: int| 1 <= k2 < pv.len() && k2 < pv.len() && d == #[trigger] dir_of(files@[i - 1].path@, k2);
                    assert(fi[i - 1] == files@[i - 1]);
                    assert(0 <= i - 1 < fi.len() && 1 <= k2 < path_parts(fi[i - 1].path@).len() && d == dir_of(fi[i - 1].path@, k2));
                }
            }
        }
    }
    proof {
        assert(files@.take(i as int) =~= files@);
    }
    dirs
}

/// A node of the tree: its path segments, and whether it is the file itself
/// rather than a folder.
pub type Node = (Seq<Seq<char>>, bool);

/// One level of a node's sort key: folders before files, then the name.
pub open spec fn level_lt(x: (bool, Seq<char>), y: (bool, Seq<char>)) -> bool {
    (!x.0 && y.0) || (x.0 == y.0 && chars_lt(x.1, y.1))
}

/// The sort key of a node: one level per segment; only a file's last level
/// is of the file class.
pub open spec fn node_key(n: Node) -> Seq<(bool, Seq<char>)> {
    Seq::new(n.0.len(), |i: int| (n.1 && i == n.0.len() - 1, n.0[i]))
}

/// Strict order of sort keys, level by level; a parent before its children.
pub open spec fn key_lt(a: Seq<(bool, Seq<char>)>, b: Seq<(bool, Seq<char>)>) -> bool
    decreases a.len(),
{
    if a.len() == 0 {
        b.len() > 0
    } else if b.len() == 0 {
        false
    } else if a[0] != b[0] {
        level_lt(a[0], b[0])
    } else {
        key_lt(a.drop_first(), b.drop_first())
    }
}

/// Tree order: each folder, then its contents (sub-folders before files,
/// each by name), before the next sibling.
pub open spec fn node_lt(a: Node, b: Node) -> bool {
    key_lt(node_key(a), node_key(b))
}

proof fn lemma_key_lt_irreflexive(a: Seq<(bool, Seq<char>)>)
    ensures
        !key_lt(a, a),
    decreases a.len(),
{
    if a.len() > 0 {
        lemma_key_lt_irreflexive(a.drop_first());
    }
}

proof fn lemma_level_lt_transitive(x: (bool, Seq<char>), y: (bool, Seq<char>), z: (bool, Seq<char>))
    requires
        level_lt(x, y),
        level_lt(y, z),
    ensures
        level_lt(x, z),
{
    if x.0 == y.0 && y.0 == z.0 {
        lemma_chars_lt_transitive(x.1, y.1, z.1);
    }
}

proof fn lemma_key_lt_transitive(a: Seq<(bool, Seq<char>)>, b: Seq<(bool, Seq<char>)>, c: Seq<(bool, Seq<char>)>)
    requires
        key_lt(a, b),
        key_lt(b, c),
    ensures
        key_lt(a, c),
    decreases a.len(),
{
    if a.len() > 0 && b.len() > 0 && c.len() > 0 {
        if a[0] == b[0] && b[0] == c[0] {
            lemma_key_lt_transitive(a.drop_first(), b.drop_first(), c.drop_first());
        } else if a[0] != b[0] && b[0] != c[0] {
            lemma_level_lt_transitive(a[0], b[0], c[0]);
            if a[0] == c[0] {
                lemma_chars_lt_irreflexive(a[0].1);
            }
        }
    }
}

proof fn lemma_key_lt_total(a: Seq<(bool, Seq<char>)>, b: Seq<(bool, Seq<char>)>)
    requires
        a != b,
    ensures
        key_lt(a, b) || key_lt(b, a),
    decreases a.len(),
{
    if a.len() > 0 && b.len() > 0 {
        if a[0] == b[0] {
            assert(a.drop_first() != b.drop_first()) by {
                if a.drop_first() == b.drop_first() {
                    assert(a =~= seq![a[0]] + a.drop_first());
                    assert(b =~= seq![b[0]] + b.drop_first());
                }
            }
            lemma_key_lt_total(a.drop_first(), b.drop_first());
        } else if a[0].0 == b[0].0 {
            assert(a[0].1 != b[0].1);
            lemma_chars_lt_total(a[0].1, b[0].1);
        }
    } else if a.len() == 0 && b.len() == 0 {
        assert(a =~= b);
    }
}

/// Distinct nodes with segments have distinct keys.
proof fn lemma_node_key_injective(a: Node, b: Node)
    requires
        a.0.len() >= 1,
        node_key(a) == node_key(b),
    ensures
        a == b,
{
    assert(node_key(a).len() == a.0.len());
    assert(node_key(b).len() == b.0.len());
    assert(a.0.len() == b.0.len());
    assert(a.0 =~= b.0) by {
        assert forall|i: int| 0 <= i < a.0.len() implies a.0[i] == b.0[i] by {
            assert(node_key(a)[i] == node_key(b)[i]);
            assert(node_key(a)[i].1 == a.0[i]);
            assert(node_key(b)[i].1 == b.0[i]);
        }
    }
    assert(node_key(a)[a.0.len() - 1] == node_key(b)[a.0.len() - 1]);
}

/// Tree order is a strict total order on nodes with segments.
pub proof fn lemma_node_order(a: Node, b: Node, c: Node)
    ensures
        !node_lt(a, a),
        node_lt(a, b) && node_lt(b, c) ==> node_lt(a, c),
        a.0.len() >= 1 && a != b ==> node_lt(a, b) || node_lt(b, a),
{
    lemma_key_lt_irreflexive(node_key(a));
    if node_lt(a, b) && node_lt(b, c) {
        lemma_key_lt_transitive(node_key(a), node_key(b), node_key(c));
    }
    if a.0.len() >= 1 && a != b {
        if node_key(a) == node_key(b) {
            lemma_node_key_injective(a, b);
        }
        lemma_key_lt_total(node_key(a), node_key(b));
    }
}

/// Level `i` of the key of a node with segments `segs`.
fn level_at(segs: &Vec<String>, file: bool, i: usize) -> (r: (bool, Vec<char>))
    requires
        i < segs@.len(),
    ensures
        (r.0, r.1@) == node_key((strings_view(segs@), file))[i as int],
{
    (file && i == segs.len() - 1, chars_of(segs[i].as_str()))
}

fn compare_nodes(a: &Vec<String>, af: bool, b: &Vec<String>, bf: bool) -> (r: Rank)
    ensures
        r == Rank::Before <==> node_lt((strings_view(a@), af), (strings_view(b@), bf)),
        r == Rank::Same <==> node_key((strings_view(a@), af)) == node_key((strings_view(b@), bf)),
        r == Rank::After <==> node_lt((strings_view(b@), bf), (strings_view(a@), af)),
{
    let ghost ka = node_key((strings_view(a@), af));
    let ghost kb = node_key((strings_view(b@), bf));
    let mut i: usize = 0;
    proof {
        assert(ka.skip(0) =~= ka);
        assert(kb.skip(0) =~= kb);
        lemma_key_lt_irreflexive(ka);
        lemma_key_lt_irreflexive(kb);
        if ka != kb {
            lemma_key_lt_total(ka, kb);
        }
    }
    while i < a.len() && i < b.len()
        invariant
            ka == node_key((strings_view(a@), af)),
            kb == node_key((strings_view(b@), bf)),
            ka.len() == a@.len(),
            kb.len() == b@.len(),
            i <= a@.len(),
            i <= b@.len(),
            ka.take(i as int) == kb.take(i as int),
            key_lt(ka, kb) == key_lt(ka.skip(i as int), kb.skip(i as int)),
            key_lt(kb, ka) == key_lt(kb.skip(i as int), ka.skip(i as int)),
        decreases a.len() - i,
    {
        let (ca, na) = level_at(a, af, i);
        let (cb, nb) = level_at(b, bf, i);
        proof {
            assert(ka.skip(i as int)[0] == ka[i as int]);
            assert(kb.skip(i as int)[0] == kb[i as int]);
        }
        if ca != cb {
            proof {
                assert(ka[i as int] != kb[i as int]);
                assert(ka != kb);
            }
            if !ca {
                return Rank::Before;
            } else {
                return Rank::After;
            }
        }
        let c = compare_chars(&na, &nb);
        if c != Rank::Same {
            proof {
                assert(ka[i as int] != kb[i as int]);
                assert(ka != kb);
            }
            return c;
        }
        proof {
            assert(ka[i as int] == kb[i as int]);
            assert(ka.skip(i as int).drop_first() =~= ka.skip(i + 1));
            assert(kb.skip(i as int).drop_first() =~= kb.skip(i + 1));
            assert(ka.take(i + 1) =~= ka.take(i as int).push(ka[i as int]));
            assert(kb.take(i + 1) =~= kb.take(i as int).push(kb[i as int]));
        }
        i += 1;
    }
    if i == a.len() && i == b.len() {
        proof {
            assert(ka =~= ka.take(i as int));
            assert(kb =~= kb.take(i as int));
        }
        Rank::Same
    } else if i == a.len() {
        proof {
            assert(ka.len() != kb.len());
        }
        Rank::Before
    } else {
        proof {
            assert(ka.len() != kb.len());
        }
        Rank::After
    }
}

/// A node being collected: its segments, whether it is a file, and (for a
/// file) the index of the changed file it shows.
pub type Entry = (Vec<String>, bool, usize);

pub open spec fn entry_node(e: Entry) -> Node {
    (strings_view(e.0@), e.1)
}

pub open spec fn entries_sorted(es: Seq<Entry>) -> bool {
    forall|a: int, b: int| 0 <= a < b < es.len() ==> node_lt(#[trigger] entry_node(es[a]), #[trigger] entry_node(es[b]))
}

pub open spec fn entries_nonempty(es: Seq<Entry>) -> bool {
    forall|a: int| 0 <= a < es.len() ==> (#[trigger] entry_node(es[a])).0.len() >= 1
}

pub open spec fn has_node(es: Seq<Entry>, n: Node) -> bool {
    exists|a: int| 0 <= a < es.len() && #[trigger] entry_node(es[a]) == n
}

fn insert_node(entries: &mut Vec<Entry>, segs: Vec<String>, file: bool, idx: usize)
    requires
        entries_sorted(old(entries)@),
        entries_nonempty(old(entries)@),
        strings_view(segs@).len() >= 1,
    ensures
        entries_sorted(final(entries)@),
        entries_nonempty(final(entries)@),
        forall|n: Node| has_node(final(entries)@, n) <==> (has_node(old(entries)@, n) || n == (
            strings_view(segs@),
            file,
        )),
        forall|b: int|
            0 <= b < final(entries)@.len() && entry_node(#[trigger] final(entries)@[b]) != (
                strings_view(segs@),
                file,
            ) ==> old(entries)@.contains(final(entries)@[b]),
        forall|b: int|
            0 <= b < final(entries)@.len() && entry_node(#[trigger] final(entries)@[b]) == (
                strings_view(segs@),
                file,
            ) ==> (final(entries)@[b].2 == idx || (!file && old(entries)@.contains(final(entries)@[b]))),
{
    let ghost new_node: Node = (strings_view(segs@), file);
    let ghost old_es = entries@;
    let mut p: usize = 0;
    while p < entries.len() && compare_nodes(&entries[p].0, entries[p].1, &segs, file) == Rank::Before
        invariant
            entries@ == old_es,
            new_node == (strings_view(segs@), file),
            p <= entries@.len(),
            forall|a: int| 0 <= a < p ==> node_lt(#[trigger] entry_node(entries@[a]), new_node),
        decreases entries.len() - p,
    {
        p += 1;
    }
    if p < entries.len() && compare_nodes(&entries[p].0, entries[p].1, &segs, file) == Rank::Same {
        proof {
            lemma_node_key_injective(new_node, entry_node(entries@[p as int]));
        }
        if file {
            entries.set(p, (segs, true, idx));
            proof {
                assert forall|a: int, b: int| 0 <= a < b < entries@.len() implies node_lt(
                    #[trigger] entry_node(entries@[a]),
                    #[trigger] entry_node(entries@[b]),
                ) by {
                    assert(entry_node(entries@[a]) == entry_node(old_es[a]));
                    assert(entry_node(entries@[b]) == entry_node(old_es[b]));
                }
                assert forall|n: Node| has_node(entries@, n) <==> (has_node(old_es, n) || n == new_node) by {
                    if has_node(entries@, n) {
                        let a = choose|a: int| 0 <= a < entries@.len() && #[trigger] entry_node(entries@[a]) == n;
                        assert(entry_node(old_es[a]) == n);
                    }
                    if has_node(old_es, n) {
                        let a = choose|a: int| 0 <= a < old_es.len() && #[trigger] entry_node(old_es[a]) == n;
                        assert(entry_node(entries@[a]) == n);
                    }
                    if n == new_node {
                        assert(entry_node(entries@[p as int]) == n);
                    }
                }
                assert forall|b: int| 0 <= b < entries@.len() && entry_node(#[trigger] entries@[b]) != new_node implies old_es.contains(entries@[b]) by {
                    assert(b != p);
                    assert(entries@[b] == old_es[b]);
                }
                assert forall|a: int| 0 <= a < entries@.len() implies (#[trigger] entry_node(entries@[a])).0.len() >= 1 by {
                    assert(entry_node(entries@[a]) == entry_node(old_es[a]));
                }
            }
        } else {
            proof {
                assert forall|b: int| 0 <= b < entries@.len() implies old_es.contains(#[trigger] entries@[b]) by {
                    assert(entries@[b] == old_es[b]);
                }
                assert(entries@ == old_es);
                assert(has_node(old_es, new_node)) by {
                    assert(entry_node(old_es[p as int]) == new_node);
                }
                assert forall|n: Node| has_node(entries@, n) <==> (has_node(old_es, n) || n == new_node) by {
                    if n == new_node {
                        assert(entry_node(old_es[p as int]) == n);
                    }
                }
            }
        }
        return;
    }
    proof {
        if p < entries@.len() {
            let e = entry_node(entries@[p as int]);
            lemma_node_order(new_node, e, e);
            assert(!node_lt(e, new_node));
            assert(node_key(e) != node_key(new_node));
            assert(e != new_node);
            assert(node_lt(new_node, e));
        }
    }
    entries.insert(p, (segs, file, idx));
    proof {
        let es = entries@;
        assert(es == old_es.insert(p as int, es[p as int]));
        assert(entry_node(es[p as int]) == new_node);
        assert forall|a: int, b: int| 0 <= a < b < es.len() implies node_lt(
            #[trigger] entry_node(es[a]),
            #[trigger] entry_node(es[b]),
        ) by {
            if b < p {
                assert(es[a] == old_es[a] && es[b] == old_es[b]);
            } else if b == p {
                assert(es[a] == old_es[a]);
            } else if a == p {
                assert(es[b] == old_es[b - 1]);
                if b - 1 > p {
                    assert(node_lt(entry_node(old_es[p as int]), entry_node(old_es[b - 1])));
                    lemma_node_order(new_node, entry_node(old_es[p as int]), entry_node(old_es[b - 1]));
                }
            } else if a < p {
                assert(es[a] == old_es[a] && es[b] == old_es[b - 1]);
                assert(node_lt(entry_node(old_es[a]), new_node));
                if p < old_es.len() {
                    lemma_node_order(entry_node(old_es[a]), new_node, entry_node(old_es[p as int]));
                    if b - 1 > p {
                        lemma_node_order(entry_node(old_es[a]), entry_node(old_es[p as int]), entry_node(old_es[b - 1]));
                    }
                }
            } else {
                assert(es[a] == old_es[a - 1] && es[b] == old_es[b - 1]);
            }
        }
        assert forall|n: Node| has_node(es, n) <==> (has_node(old_es, n) || n == new_node) by {
            if has_node(es, n) {
                let a = choose|a: int| 0 <= a < es.len() && #[trigger] entry_node(es[a]) == n;
                if a < p {
                    assert(es[a] == old_es[a]);
                } else if a > p {
                    assert(es[a] == old_es[a - 1]);
                }
            }
            if has_node(old_es, n) {
                let a = choose|a: int| 0 <= a < old_es.len() && #[trigger] entry_node(old_es[a]) == n;
                if a < p {
                    assert(es[a] == old_es[a]);
                } else {
                    assert(es[a + 1] == old_es[a]);
                }
            }
        }
        assert forall|b: int| 0 <= b < es.len() && entry_node(#[trigger] es[b]) != new_node implies old_es.contains(es[b]) by {
            if b < p {
                assert(es[b] == old_es[b]);
            } else {
                assert(b != p);
                assert(es[b] == old_es[b - 1]);
            }
        }
        assert forall|b: int| 0 <= b < es.len() && entry_node(#[trigger] es[b]) == new_node implies es[b].2 == idx by {
            if b != p {
                if b < p {
                    assert(es[b] == old_es[b]);
                    assert(node_lt(entry_node(old_es[b]), new_node));
                    lemma_node_order(new_node, new_node, new_node);
                } else {
                    assert(es[b] == old_es[b - 1]);
                    if p < old_es.len() {
                        if b - 1 > p {
                            lemma_node_order(new_node, entry_node(old_es[p as int]), entry_node(old_es[b - 1]));
                        }
                        lemma_node_order(new_node, new_node, new_node);
                    }
                }
            }
        }
        assert forall|a: int| 0 <= a < es.len() implies (#[trigger] entry_node(es[a])).0.len() >= 1 by {
            if a < p {
                assert(es[a] == old_es[a]);
            } else if a > p {
                assert(es[a] == old_es[a - 1]);
            }
        }
    }
}

/// No folder above the node (a proper prefix of its segments) is collapsed.
pub open spec fn visible(segs: Seq<Seq<char>>, collapsed: Seq<Seq<char>>) -> bool {
    forall|k: int| 1 <= k < segs.len() ==> !collapsed.contains(#[trigger] join(segs.take(k), "/"@))
}

/// A folder that holds a change: a proper prefix of a changed path.
pub open spec fn is_dir_node(files: Seq<GitFile>, segs: Seq<Seq<char>>) -> bool {
    exists|j: int, k: int|
        0 <= j < files.len() && 1 <= k < path_parts(files[j].path@).len() && segs
            == #[trigger] path_parts(files[j].path@).take(k)
}

/// The segments of a changed path.
pub open spec fn is_file_node(files: Seq<GitFile>, segs: Seq<Seq<char>>) -> bool {
    exists|j: int|
        0 <= j < files.len() && path_parts(files[j].path@).len() >= 1 && segs == #[trigger] path_parts(
            files[j].path@,
        )
}

/// A node the tree shows: a folder holding a change or a changed file,
/// with no collapsed folder above it.
pub open spec fn shown(files: Seq<GitFile>, collapsed: Seq<Seq<char>>, n: Node) -> bool {
    &&& n.0.len() >= 1
    &&& visible(n.0, collapsed)
    &&& if n.1 {
        is_file_node(files, n.0)
    } else {
        is_dir_node(files, n.0)
    }
}

/// The last changed file whose path has these segments (a later report of
/// the same path wins), or -1.
pub open spec fn last_index(files: Seq<GitFile>, segs: Seq<Seq<char>>) -> int
    decreases files.len(),
{
    if files.len() == 0 {
        -1
    } else if path_parts(files.last().path@) == segs {
        files.len() - 1
    } else {
        last_index(files.drop_last(), segs)
    }
}

proof fn lemma_last_index(files: Seq<GitFile>, segs: Seq<Seq<char>>)
    ensures
        -1 <= last_index(files, segs) < files.len(),
        last_index(files, segs) >= 0 ==> path_parts(files[last_index(files, segs)].path@) == segs,
        is_file_node(files, segs) ==> last_index(files, segs) >= 0,
    decreases files.len(),
{
    if files.len() > 0 {
        let t = files.drop_last();
        lemma_last_index(t, segs);
        if last_index(files, segs) >= 0 && path_parts(files.last().path@) != segs {
            assert(files[last_index(files, segs)] == t[last_index(t, segs)]);
        }
        if is_file_node(files, segs) && path_parts(files.last().path@) != segs {
            let j = choose|j: int|
                0 <= j < files.len() && path_parts(files[j].path@).len() >= 1 && segs == #[trigger] path_parts(
                    files[j].path@,
                );
            assert(j != files.len() - 1);
            assert(t[j] == files[j]);
            assert(is_file_node(t, segs));
        }
    }
}

/// The nodes file `f` adds to the tree.
pub open spec fn adds(f: GitFile, collapsed: Seq<Seq<char>>, n: Node) -> bool {
    let pp = path_parts(f.path@);
    &&& n.0.len() >= 1
    &&& visible(n.0, collapsed)
    &&& if n.1 {
        pp.len() >= 1 && n.0 == pp
    } else {
        exists|k: int| 1 <= k < pp.len() && n.0 == #[trigger] pp.take(k)
    }
}

proof fn lemma_shown_step(files: Seq<GitFile>, i: int, collapsed: Seq<Seq<char>>, n: Node)
    requires
        0 <= i < files.len(),
    ensures
        shown(files.take(i + 1), collapsed, n) <==> (shown(files.take(i), collapsed, n) || adds(
            files[i],
            collapsed,
            n,
        )),
{
    let fi = files.take(i + 1);
    let fp = files.take(i);
    assert(fi[i] == files[i]);
    assert forall|j: int| 0 <= j < i implies fi[j] == fp[j] by {}
    if n.1 {
        if is_file_node(fi, n.0) {
            let j = choose|j: int|
                0 <= j < fi.len() && path_parts(fi[j].path@).len() >= 1 && n.0 == #[trigger] path_parts(
                    fi[j].path@,
                );
            if j < i {
                assert(fp[j] == fi[j]);
            }
        }
        if is_file_node(fp, n.0) {
            let j = choose|j: int|
                0 <= j < fp.len() && path_parts(fp[j].path@).len() >= 1 && n.0 == #[trigger] path_parts(
                    fp[j].path@,
                );
            assert(fi[j] == fp[j]);
        }
        if adds(files[i], collapsed, n) {
            assert(path_parts(fi[i].path@) == n.0);
        }
    } else {
        let pp = path_parts(files[i].path@);
        if is_dir_node(fi, n.0) {
            let (j, k) = choose|j: int, k: int|
                0 <= j < fi.len() && 1 <= k < path_parts(fi[j].path@).len() && n.0
                    == #[trigger] path_parts(fi[j].path@).take(k);
            if j < i {
                assert(fp[j] == fi[j]);
            } else {
                assert(n.0 == pp.take(k));
            }
        }
        if is_dir_node(fp, n.0) {
            let (j, k) = choose|j: int, k: int|
                0 <= j < fp.len() && 1 <= k < path_parts(fp[j].path@).len() && n.0
                    == #[trigger] path_parts(fp[j].path@).take(k);
            assert(fi[j] == fp[j]);
        }
        if adds(files[i], collapsed, n) {
            let k = choose|k: int| 1 <= k < pp.len() && n.0 == #[trigger] pp.take(k);
            assert(path_parts(fi[i].path@).take(k) == n.0);
        }
    }
}

proof fn lemma_visible_prefix(s: Seq<Seq<char>>, collapsed: Seq<Seq<char>>, k: int, m: int)
    requires
        0 <= k <= m <= s.len(),
    ensures
        visible(s.take(m), collapsed) ==> visible(s.take(k), collapsed),
{
    if visible(s.take(m), collapsed) {
        assert forall|j: int| 1 <= j < s.take(k).len() implies !collapsed.contains(
            #[trigger] join(s.take(k).take(j), "/"@),
        ) by {
            assert(s.take(k).take(j) =~= s.take(m).take(j));
        }
    }
}

proof fn lemma_visible_step(s: Seq<Seq<char>>, collapsed: Seq<Seq<char>>, k: int)
    requires
        1 <= k < s.len(),
    ensures
        visible(s.take(k + 1), collapsed) == (visible(s.take(k), collapsed) && !collapsed.contains(
            join(s.take(k), "/"@),
        )),
{
    assert(s.take(k + 1).take(k) =~= s.take(k));
    assert forall|j: int| 1 <= j < k implies s.take(k + 1).take(j) =~= s.take(k).take(j) by {}
    if visible(s.take(k), collapsed) && !collapsed.contains(join(s.take(k), "/"@)) {
        assert forall|j: int| 1 <= j < s.take(k + 1).len() implies !collapsed.contains(
            #[trigger] join(s.take(k + 1).take(j), "/"@),
        ) by {
            if j < k {
                assert(s.take(k + 1).take(j) =~= s.take(k).take(j));
            }
        }
    }
    if visible(s.take(k + 1), collapsed) {
        assert(!collapsed.contains(join(s.take(k + 1).take(k), "/"@)));
        assert forall|j: int| 1 <= j < s.take(k).len() implies !collapsed.contains(
            #[trigger] join(s.take(k).take(j), "/"@),
        ) by {
            assert(s.take(k + 1).take(j) =~= s.take(k).take(j));
        }
    }
}

/// File-row entries show the last report of their path.
pub open spec fn file_indices_ok(es: Seq<Entry>, files: Seq<GitFile>) -> bool {
    forall|a: int|
        0 <= a < es.len() && (#[trigger] es[a]).1 ==> es[a].2 as int == last_index(
            files,
            entry_node(es[a]).0,
        )
}

/// The shown nodes of `files` in tree order, each with the file it shows.
fn collect_nodes(files: &[GitFile], collapsed: &[String]) -> (es: Vec<Entry>)
    ensures
        entries_sorted(es@),
        entries_nonempty(es@),
        forall|n: Node| has_node(es@, n) <==> shown(files@, collapsed.deep_view(), n),
        file_indices_ok(es@, files@),
{
    let ghost cv = collapsed.deep_view();
    let mut es: Vec<Entry> = Vec::new();
    let mut i: usize = 0;
    while i < files.len()
        invariant
            i <= files@.len(),
            cv == collapsed.deep_view(),
            entries_sorted(es@),
            entries_nonempty(es@),
            forall|n: Node| #[trigger] has_node(es@, n) <==> shown(files@.take(i as int), cv, n),
            file_indices_ok(es@, files@.take(i as int)),
        decreases files.len() - i,
    {
        let parts = git_path_parts(files[i].path.as_str());
        let ghost pv = path_parts(files@[i as int].path@);
        let ghost before = es@;
        let n = parts.len();
        if n == 0 {
            i += 1;
            proof {
                assert forall|m: Node| #[trigger] has_node(es@, m) <==> shown(files@.take(i as int), cv, m) by {
                    lemma_shown_step(files@, i - 1, cv, m);
                    assert(files@.take(i as int)[i - 1] == files@[i - 1]);
                }
                assert forall|a: int| 0 <= a < es@.len() && (#[trigger] es@[a]).1 implies es@[a].2 as int == last_index(
                    files@.take(i as int),
                    entry_node(es@[a]).0,
                ) by {
                    assert(files@.take(i as int).drop_last() =~= files@.take(i - 1));
                    assert(entry_node(es@[a]).0.len() >= 1);
                }
            }
            continue;
        }
        let mut vis = true;
        let mut k: usize = 1;
        proof {
            assert forall|j: int| 1 <= j < pv.take(1).len() implies !cv.contains(
                #[trigger] join(pv.take(1).take(j), "/"@),
            ) by {}
        }
        while k < n && vis
            invariant
                1 <= k,
                i < files@.len(),
                n == parts@.len(),
                strings_view(parts@) == pv,
                pv == path_parts(files@[i as int].path@),
                cv == collapsed.deep_view(),
                vis ==> k <= n,
                k <= n || n == 0,
                vis == visible(pv.take(k as int), cv),
                k >= 2 ==> visible(pv.take(k - 1), cv),
                entries_sorted(es@),
                entries_nonempty(es@),
                forall|m: Node| #[trigger] has_node(es@, m) <==> (has_node(before, m) || (!m.1 && exists|k2: int|
                    1 <= k2 < k && k2 < pv.len() && m.0 == #[trigger] pv.take(k2))),
                forall|b: int| 0 <= b < es@.len() && (#[trigger] es@[b]).1 ==> before.contains(es@[b]),
            decreases n - k,
        {
            let segs = clone_range(&parts, 0, k);
            proof {
                assert(segs.deep_view() =~= strings_view(segs@));
                assert(parts.deep_view() =~= strings_view(parts@));
                assert(strings_view(segs@) == pv.take(k as int));
            }
            let ghost mid = es@;
            insert_node(&mut es, segs, false, 0);
            proof {
                assert forall|m: Node| has_node(es@, m) <==> (has_node(before, m) || (!m.1 && exists|k2: int|
                    1 <= k2 < k + 1 && k2 < pv.len() && m.0 == #[trigger] pv.take(k2))) by {
                    if m == (pv.take(k as int), false) {
                        assert(pv.take(k as int) == pv.take(k as int));
                    }
                    if !m.1 && exists|k2: int| 1 <= k2 < k + 1 && k2 < pv.len() && m.0 == #[trigger] pv.take(k2) {
                        let k2 = choose|k2: int| 1 <= k2 < k + 1 && k2 < pv.len() && m.0 == #[trigger] pv.take(k2);
                        if k2 < k {
                            assert(has_node(mid, m));
                        }
                    }
                }
                assert forall|b: int| 0 <= b < es@.len() && (#[trigger] es@[b]).1 implies before.contains(es@[b]) by {
                    assert(entry_node(es@[b]) != (pv.take(k as int), false));
                    assert(mid.contains(es@[b]));
                    let a = choose|a: int| 0 <= a < mid.len() && mid[a] == es@[b];
                    assert(mid[a].1);
                }
            }
            let d = join_prefix(&parts, k);
            vis = !contains_str(collapsed, d.as_str());
            proof {
                lemma_visible_step(pv, cv, k as int);
            }
            k += 1;
        }
        proof {
            if !vis {
                assert forall|m: int| k <= m <= pv.len() implies !visible(#[trigger] pv.take(m), cv) by {
                    lemma_visible_prefix(pv, cv, k as int, m);
                }
            }
        }
        let ghost after_dirs = es@;
        if vis && n >= 1 {
            proof {
                assert(pv.take(n as int) =~= pv);
            }
            insert_node(&mut es, parts, true, i);
        }
        i += 1;
        proof {
            let fi = files@.take(i as int);
            let fp = files@.take(i - 1);
            let f = files@[i - 1];
            assert(fi.drop_last() =~= fp);
            assert(fi.last() == f);
            assert forall|m: Node| has_node(es@, m) <==> shown(fi, cv, m) by {
                lemma_shown_step(files@, i - 1, cv, m);
                if m.1 {
                    if m == (pv, true) && vis && n >= 1 {
                    } else {
                        if has_node(es@, m) && !(vis && n >= 1) {
                            assert(has_node(after_dirs, m));
                        }
                    }
                    if adds(f, cv, m) {
                        assert(m.0 == pv);
                        if !vis {
                            assert(pv.take(pv.len() as int) =~= pv);
                            assert(!visible(pv.take(pv.len() as int), cv));
                        }
                    }
                    if has_node(es@, m) && m != (pv, true) {
                        if vis && n >= 1 {
                            assert(has_node(after_dirs, m));
                        }
                        assert(has_node(after_dirs, m));
                        assert(has_node(before, m));
                    }
                } else {
                    if has_node(es@, m) {
                        if vis && n >= 1 {
                            assert(has_node(after_dirs, m));
                        }
                        if !has_node(before, m) {
                            let k2 = choose|k2: int| 1 <= k2 < k && k2 < pv.len() && m.0 == #[trigger] pv.take(k2);
                            lemma_visible_prefix(pv, cv, k2, k - 1);
                            assert(path_parts(f.path@) == pv);
                            assert(path_parts(f.path@).take(k2) == m.0);
                            assert(adds(f, cv, m));
                        }
                    }
                    if adds(f, cv, m) && !has_node(before, m) {
                        let k2 = choose|k2: int| 1 <= k2 < pv.len() && m.0 == #[trigger] pv.take(k2);
                        if k2 >= k {
                            lemma_visible_prefix(pv, cv, k2, k2);
                            assert(!vis);
                            assert(!visible(pv.take(k2), cv));
                        }
                        assert(has_node(after_dirs, m));
                        if vis && n >= 1 {
                            assert(m != (pv, true));
                        }
                    }
                }
            }
            assert forall|a: int| 0 <= a < es@.len() && (#[trigger] es@[a]).1 implies es@[a].2 as int == last_index(
                fi,
                entry_node(es@[a]).0,
            ) by {
                let e = es@[a];
                if e.0.deep_view() == pv && vis && n >= 1 && entry_node(e) == (pv, true) {
                    assert(e.2 == i - 1);
                } else {
                    if vis && n >= 1 {
                        assert(entry_node(e) != (pv, true) ==> after_dirs.contains(e));
                    }
                    if entry_node(e) == (pv, true) && !(vis && n >= 1) {
                        assert(has_node(es@, entry_node(e)));
                        assert(shown(fi, cv, entry_node(e)));
                    }
                    assert(after_dirs.contains(e) || entry_node(e) == (pv, true));
                    if after_dirs.contains(e) {
                        let b = choose|b: int| 0 <= b < after_dirs.len() && after_dirs[b] == e;
                        assert(before.contains(e));
                        let c = choose|c: int| 0 <= c < before.len() && before[c] == e;
                        assert(has_node(before, entry_node(e)));
                        if entry_node(e).0 == pv {
                            assert(shown(fp, cv, entry_node(e)));
                            assert(visible(pv, cv));
                            assert(pv.take(pv.len() as int) =~= pv);
                        }
                    }
                }
            }
        }
    }
    proof {
        assert(files@.take(i as int) =~= files@);
    }
    es
}

/// One row of the changes tree.
#[derive(Clone, Debug, PartialEq, Eq)]
pub enum GitTreeRow {
    /// A folder: its `/`-joined path, nesting depth and last segment.
    Dir { path: String, depth: usize, name: String },
    /// A changed file: its report, nesting depth and file name.
    File { file: GitFile, depth: usize, name: String },
}

pub enum RowView {
    Dir(Seq<char>, nat, Seq<char>),
    File(GitFileView, nat, Seq<char>),
}

impl View for GitTreeRow {
    type V = RowView;

    open spec fn view(&self) -> RowView {
        match self {
            GitTreeRow::Dir { path, depth, name } => RowView::Dir(path@, *depth as nat, name@),
            GitTreeRow::File { file, depth, name } => RowView::File(file@, *depth as nat, name@),
        }
    }
}

pub open spec fn rows_view(v: Seq<GitTreeRow>) -> Seq<RowView> {
    v.map_values(|r: GitTreeRow| r@)
}

/// The row a node is shown as.
pub open spec fn node_row(files: Seq<GitFile>, n: Node) -> RowView {
    let depth = (n.0.len() - 1) as nat;
    if n.1 {
        RowView::File(files[last_index(files, n.0)]@, depth, n.0.last())
    } else {
        RowView::Dir(join(n.0, "/"@), depth, n.0.last())
    }
}

/// `nodes` lists exactly the shown nodes, in tree order.
pub open spec fn tree_nodes(files: Seq<GitFile>, collapsed: Seq<Seq<char>>, nodes: Seq<Node>) -> bool {
    &&& forall|a: int, b: int| 0 <= a < b < nodes.len() ==> node_lt(#[trigger] nodes[a], #[trigger] nodes[b])
    &&& forall|n: Node| nodes.contains(n) <==> shown(files, collapsed, n)
}

/// The rows of the changes tree: every folder that holds a change and
/// every changed path, each once, in tree order (a folder, then its
/// sub-folders, then its files, names ascending), leaving out whatever lies
/// under a collapsed folder. A path reported twice shows its last report.
pub open spec fn change_rows(files: Seq<GitFile>, collapsed: Seq<Seq<char>>) -> Seq<RowView> {
    let nodes = choose|nodes: Seq<Node>| tree_nodes(files, collapsed, nodes);
    nodes.map_values(|n: Node| node_row(files, n))
}

/// There is only one way to list a set of nodes in tree order.
pub proof fn lemma_tree_order_unique(s: Seq<Node>, t: Seq<Node>)
    requires
        forall|a: int, b: int| 0 <= a < b < s.len() ==> node_lt(#[trigger] s[a], #[trigger] s[b]),
        forall|a: int, b: int| 0 <= a < b < t.len() ==> node_lt(#[trigger] t[a], #[trigger] t[b]),
        forall|n: Node| s.contains(n) <==> t.contains(n),
    ensures
        s == t,
    decreases s.len(),
{
    if s.len() == 0 {
        if t.len() > 0 {
            assert(t.contains(t[0]));
        }
        assert(s =~= t);
    } else {
        assert(s.contains(s[0]));
        assert(t.contains(s[0]));
        let j = choose|j: int| 0 <= j < t.len() && t[j] == s[0];
        assert(t.contains(t[0]));
        let i = choose|i: int| 0 <= i < s.len() && s[i] == t[0];
        if j > 0 {
            lemma_node_order(t[0], t[0], t[0]);
            if i > 0 {
                lemma_node_order(t[0], s[0], t[0]);
            }
            assert(false);
        }
        let s2 = s.drop_first();
        let t2 = t.drop_first();
        assert forall|n: Node| s2.contains(n) <==> t2.contains(n) by {
            if s2.contains(n) {
                let a = choose|a: int| 0 <= a < s2.len() && s2[a] == n;
                assert(s[a + 1] == n);
                assert(node_lt(s[0], s[a + 1]));
                lemma_node_order(n, n, n);
                assert(t.contains(n));
                let b = choose|b: int| 0 <= b < t.len() && t[b] == n;
                assert(b != 0);
                assert(t2[b - 1] == n);
            }
            if t2.contains(n) {
                let a = choose|a: int| 0 <= a < t2.len() && t2[a] == n;
                assert(t[a + 1] == n);
                assert(node_lt(t[0], t[a + 1]));
                lemma_node_order(n, n, n);
                assert(s.contains(n));
                let b = choose|b: int| 0 <= b < s.len() && s[b] == n;
                assert(b != 0);
                assert(s2[b - 1] == n);
            }
        }
        assert forall|a: int, b: int| 0 <= a < b < s2.len() implies node_lt(#[trigger] s2[a], #[trigger] s2[b]) by {
            assert(s2[a] == s[a + 1] && s2[b] == s[b + 1]);
        }
        assert forall|a: int, b: int| 0 <= a < b < t2.len() implies node_lt(#[trigger] t2[a], #[trigger] t2[b]) by {
            assert(t2[a] == t[a + 1] && t2[b] == t[b + 1]);
        }
        lemma_tree_order_unique(s2, t2);
        assert(s =~= seq![s[0]] + s2);
        assert(t =~= seq![t[0]] + t2);
    }
}

/// A copy of a changed-file report.
fn copy_file(f: &GitFile) -> (r: GitFile)
    ensures
        r@ == f@,
{
    GitFile { path: string_of(&chars_of(f.path.as_str())), xy: string_of(&chars_of(f.xy.as_str())) }
}

/// The changed files grouped by folder, as the panel's rows. Folders whose
/// `/`-joined path is in `collapsed` show their own row but none beneath.
pub fn git_change_rows(files: &[GitFile], collapsed: &[String]) -> (r: Vec<GitTreeRow>)
    ensures
        rows_view(r@) == change_rows(files@, collapsed.deep_view()),
{
    let es = collect_nodes(files, collapsed);
    let ghost cv = collapsed.deep_view();
    let ghost nodes = es@.map_values(|e: Entry| entry_node(e));
    proof {
        assert forall|a: int, b: int| 0 <= a < b < nodes.len() implies node_lt(#[trigger] nodes[a], #[trigger] nodes[b]) by {
            assert(nodes[a] == entry_node(es@[a]) && nodes[b] == entry_node(es@[b]));
        }
        assert forall|n: Node| nodes.contains(n) <==> shown(files@, cv, n) by {
            if nodes.contains(n) {
                let a = choose|a: int| 0 <= a < nodes.len() && nodes[a] == n;
                assert(entry_node(es@[a]) == n);
                assert(has_node(es@, n));
            }
            if shown(files@, cv, n) {
                assert(has_node(es@, n));
                let a = choose|a: int| 0 <= a < es@.len() && #[trigger] entry_node(es@[a]) == n;
                assert(nodes[a] == n);
            }
        }
        assert(tree_nodes(files@, cv, nodes));
        let other = choose|nodes: Seq<Node>| tree_nodes(files@, cv, nodes);
        lemma_tree_order_unique(nodes, other);
    }
    let mut rows: Vec<GitTreeRow> = Vec::new();
    let mut a: usize = 0;
    while a < es.len()
        invariant
            a <= es@.len(),
            nodes == es@.map_values(|e: Entry| entry_node(e)),
            cv == collapsed.deep_view(),
            entries_nonempty(es@),
            file_indices_ok(es@, files@),
            forall|n: Node| has_node(es@, n) <==> shown(files@, cv, n),
            rows_view(rows@) == nodes.take(a as int).map_values(|n: Node| node_row(files@, n)),
        decreases es.len() - a,
    {
        let segs = &es[a].0;
        let len = segs.len();
        proof {
            assert(entry_node(es@[a as int]).0.len() >= 1);
        }
        let name = string_of(&chars_of(segs[len - 1].as_str()));
        let ghost n = entry_node(es@[a as int]);
        let row = if es[a].1 {
            proof {
                assert(has_node(es@, n));
                assert(shown(files@, cv, n));
                lemma_last_index(files@, n.0);
            }
            GitTreeRow::File { file: copy_file(&files[es[a].2]), depth: len - 1, name }
        } else {
            let path = join_prefix(segs, len);
            proof {
                assert(strings_view(segs@).take(len as int) =~= strings_view(segs@));
            }
            GitTreeRow::Dir { path, depth: len - 1, name }
        };
        proof {
            assert(row@ == node_row(files@, n));
        }
        let ghost prev = rows_view(rows@);
        rows.push(row);
        a += 1;
        proof {
            assert(rows_view(rows@) =~= prev.push(row@));
            assert(nodes.take(a as int) =~= nodes.take(a - 1).push(n));
            assert(rows_view(rows@) =~= nodes.take(a as int).map_values(|n: Node| node_row(files@, n)));
        }
    }
    proof {
        assert(nodes.take(a as int) =~= nodes);
    }
    rows
}

/// Which stage actions a changed file offers: `(staged, unstaged)`. The
/// first status letter is the index, the second the work tree; `?` is an
/// untracked file, which can only be staged.
pub open spec fn stage_flags_spec(xy: Seq<char>) -> (bool, bool) {
    let index = if xy.len() >= 1 {
        xy[0]
    } else {
        ' '
    };
    let work = if xy.len() >= 2 {
        xy[1]
    } else {
        ' '
    };
    (index != ' ' && index != '?', work != ' ' || index == '?')
}

pub fn stage_flags(xy: &str) -> (r: (bool, bool))
    ensures
        r == stage_flags_spec(xy@),
{
    let v = chars_of(xy);
    let index = if v.len() >= 1 {
        v[0]
    } else {
        ' '
    };
    let work = if v.len() >= 2 {
        v[1]
    } else {
        ' '
    };
    (index != ' ' && index != '?', work != ' ' || index == '?')
}

/// The status letters a row shows; two spaces when git gave none.
pub fn status_label(xy: &str) -> (r: String)
    ensures
        r@ == (if xy@.len() == 0 {
            "  "@
        } else {
            xy@
        }),
{
    let v = chars_of(xy);
    if v.len() == 0 {
        string_of(&chars_of("  "))
    } else {
        string_of(&v)
    }
}

/// The folder repository paths are relative to: the repository root, or
/// the explorer folder when git reported none.
pub open spec fn repo_root_spec(git_root: Seq<char>, explorer_root: Seq<char>) -> Seq<char> {
    if git_root.len() == 0 {
        explorer_root
    } else {
        git_root
    }
}

/// Lookup keys of one changed file: its relative path, its absolute path,
/// and that path as displayed; each maps to the relative path.
pub open spec fn file_keys(root: Seq<char>, f: GitFile, windows: bool) -> Seq<(Seq<char>, Seq<char>)> {
    let abs = join_repo_spec(root, f.path@);
    seq![
        (git_lookup_key_spec(f.path@, windows), f.path@),
        (git_lookup_key_spec(abs, windows), f.path@),
        (git_lookup_key_spec(display_path_spec(abs), windows), f.path@),
    ]
}

pub open spec fn index_entries(root: Seq<char>, files: Seq<GitFile>, windows: bool) -> Seq<(Seq<char>, Seq<char>)>
    decreases files.len(),
{
    if files.len() == 0 {
        Seq::empty()
    } else {
        index_entries(root, files.drop_last(), windows) + file_keys(root, files.last(), windows)
    }
}

/// The value of the last entry with this key: a later file wins.
pub open spec fn last_value(entries: Seq<(Seq<char>, Seq<char>)>, key: Seq<char>) -> Option<Seq<char>>
    decreases entries.len(),
{
    if entries.len() == 0 {
        None
    } else if entries.last().0 == key {
        Some(entries.last().1)
    } else {
        last_value(entries.drop_last(), key)
    }
}

/// Changed files by every path the window may name them with.
pub struct GitPathIndex {
    entries: Vec<(String, String)>,
}

pub open spec fn pairs_view(v: Seq<(String, String)>) -> Seq<(Seq<char>, Seq<char>)> {
    v.map_values(|p: (String, String)| (p.0@, p.1@))
}

impl View for GitPathIndex {
    type V = Seq<(Seq<char>, Seq<char>)>;

    closed spec fn view(&self) -> Seq<(Seq<char>, Seq<char>)> {
        pairs_view(self.entries@)
    }
}

fn push_pair(v: &mut Vec<(String, String)>, k: String, val: String)
    ensures
        pairs_view(final(v)@) == pairs_view(old(v)@).push((k@, val@)),
{
    let ghost prev = pairs_view(v@);
    v.push((k, val));
    proof {
        assert(pairs_view(v@) =~= prev.push((k@, val@)));
    }
}

impl GitPathIndex {
    /// The index for a status report; `windows` folds keys to lower case.
    pub fn build(git_root: &str, explorer_root: &str, files: &[GitFile], windows: bool) -> (r: Self)
        ensures
            r@ == index_entries(repo_root_spec(git_root@, explorer_root@), files@, windows),
    {
        let root: &str = if chars_of(git_root).len() == 0 {
            explorer_root
        } else {
            git_root
        };
        let ghost rs = repo_root_spec(git_root@, explorer_root@);
        let mut entries: Vec<(String, String)> = Vec::new();
        let mut i: usize = 0;
        while i < files.len()
            invariant
                i <= files@.len(),
                root@ == rs,
                pairs_view(entries@) == index_entries(rs, files@.take(i as int), windows),
            decreases files.len() - i,
        {
            let f = &files[i];
            let abs = join_repo(root, f.path.as_str());
            push_pair(&mut entries, git_lookup_key(f.path.as_str(), windows), string_of(&chars_of(f.path.as_str())));
            push_pair(&mut entries, git_lookup_key(abs.as_str(), windows), string_of(&chars_of(f.path.as_str())));
            let shown = display_path(abs.as_str());
            push_pair(&mut entries, git_lookup_key(shown.as_str(), windows), string_of(&chars_of(f.path.as_str())));
            i += 1;
            proof {
                assert(files@.take(i as int).drop_last() =~= files@.take(i - 1));
                assert(files@.take(i as int).last() == files@[i - 1]);
                assert(pairs_view(entries@) =~= index_entries(rs, files@.take(i as int), windows));
            }
        }
        proof {
            assert(files@.take(i as int) =~= files@);
        }
        GitPathIndex { entries }
    }

    /// The relative path a window path names, by its lookup key.
    pub fn lookup(&self, path: &str, windows: bool) -> (r: Option<String>)
        ensures
            r.deep_view() == last_value(self@, git_lookup_key_spec(path@, windows)),
    {
        let key = git_lookup_key(path, windows);
        let ghost es = pairs_view(self.entries@);
        let mut i: usize = self.entries.len();
        proof {
            assert(es.take(i as int) =~= es);
        }
        while i > 0
            invariant
                i <= self.entries@.len(),
                es == pairs_view(self.entries@),
                key@ == git_lookup_key_spec(path@, windows),
                last_value(es, key@) == last_value(es.take(i as int), key@),
            decreases i,
        {
            proof {
                assert(es.take(i as int).drop_last() =~= es.take(i - 1));
                assert(es.take(i as int).last() == es[i - 1]);
                assert(es[i - 1] == (self.entries@[i - 1].0@, self.entries@[i - 1].1@));
            }
            if crate::strs::str_eq(self.entries[i - 1].0.as_str(), key.as_str()) {
                return Some(string_of(&chars_of(self.entries[i - 1].1.as_str())));
            }
            i -= 1;
        }
        None
    }
}

/// The repository-relative path of a changed file a window path names:
/// directly by the index, or through its path relative to the repository
/// root. `windows` folds case.
pub open spec fn rel_for_spec(
    index: Seq<(Seq<char>, Seq<char>)>,
    git_root: Seq<char>,
    explorer_root: Seq<char>,
    path: Seq<char>,
    windows: bool,
) -> Option<Seq<char>> {
    match last_value(index, git_lookup_key_spec(path, windows)) {
        Some(v) => Some(v),
        None => match git_relative_spec(repo_root_spec(git_root, explorer_root), path, windows) {
            Some(rel) => last_value(index, git_lookup_key_spec(rel, windows)),
            None => None,
        },
    }
}

pub fn git_rel_for(index: &GitPathIndex, git_root: &str, explorer_root: &str, path: &str, windows: bool) -> (r:
    Option<String>)
    ensures
        r.deep_view() == rel_for_spec(index@, git_root@, explorer_root@, path@, windows),
{
    if let Some(v) = index.lookup(path, windows) {
        return Some(v);
    }
    let empty_root = chars_of(git_root).len() == 0;
    let root: &str = if empty_root {
        explorer_root
    } else {
        git_root
    };
    match git_relative(root, path, windows) {
        Some(rel) => index.lookup(rel.as_str(), windows),
        None => None,
    }
}

/// Collapsed folders that no longer hold a change are forgotten.
pub fn retain_present(collapsed: &mut Vec<String>, files: &[GitFile])
    ensures
        strings_view(final(collapsed)@) == strings_view(old(collapsed)@).filter(
            |d: Seq<char>| is_change_dir(files@, d),
        ),
{
    let present = git_dir_paths(files);
    proof {
        assert(present.deep_view() =~= strings_view(present@));
    }
    let ghost start = strings_view(collapsed@);
    let mut kept: Vec<String> = Vec::new();
    let mut i: usize = 0;
    while i < collapsed.len()
        invariant
            i <= collapsed@.len(),
            start == strings_view(collapsed@),
            present.deep_view() == strings_view(present@),
            forall|d: Seq<char>| strings_view(present@).contains(d) <==> is_change_dir(files@, d),
            strings_view(kept@) == start.take(i as int).filter(|d: Seq<char>| is_change_dir(files@, d)),
        decreases collapsed.len() - i,
    {
        let ghost prev = strings_view(kept@);
        proof {
            assert(start.take(i + 1).drop_last() =~= start.take(i as int));
            assert(start.take(i + 1).last() == collapsed@[i as int]@);
        }
        if contains_str(&present, collapsed[i].as_str()) {
            kept.push(string_of(&chars_of(collapsed[i].as_str())));
            proof {
                assert(strings_view(kept@) =~= prev.push(collapsed@[i as int]@));
            }
        } else {
            proof {
                assert(strings_view(kept@) =~= prev);
            }
        }
        i += 1;
        proof {
            let s = start.take(i as int);
            reveal(Seq::filter);
            assert(s.drop_last() =~= start.take(i - 1));
        }
    }
    proof {
        assert(start.take(i as int) =~= start);
    }
    *collapsed = kept;
}

} // verus!
