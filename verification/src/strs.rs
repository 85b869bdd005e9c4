//! Lists of strings: comparison, search and building `Vec<String>` results.

use vstd::prelude::*;
use vstd::string::*;

use vstd::relations::{sorted_by, total_ordering};

use crate::text::{
    chars_lt, chars_of, compare_chars, eq_chars, lemma_chars_lt_irreflexive, lemma_chars_lt_total,
    lemma_chars_lt_transitive, Rank,
};

verus! {

pub open spec fn strings_view(v: Seq<String>) -> Seq<Seq<char>> {
    v.map_values(|s: String| s@)
}

/// String order as `Ord for String` has it: by character code, a proper
/// prefix first; `chars_leq()(a, b)` when `a` sorts no later than `b`.
pub open spec fn chars_leq() -> spec_fn(Seq<char>, Seq<char>) -> bool {
    |a: Seq<char>, b: Seq<char>| !chars_lt(b, a)
}

pub proof fn lemma_chars_leq_total()
    ensures
        total_ordering(chars_leq()),
{
    let leq = chars_leq();
    assert forall|x: Seq<char>| #[trigger] leq(x, x) by {
        lemma_chars_lt_irreflexive(x);
    }
    assert forall|x: Seq<char>, y: Seq<char>| #[trigger] leq(x, y) && #[trigger] leq(y, x) implies x == y by {
        if x != y {
            lemma_chars_lt_total(x, y);
        }
    }
    assert forall|x: Seq<char>, y: Seq<char>, z: Seq<char>| #[trigger] leq(x, y) && #[trigger] leq(y, z) implies leq(x, z) by {
        if chars_lt(z, x) {
            if x == y {
            } else {
                lemma_chars_lt_total(x, y);
                lemma_chars_lt_transitive(z, x, y);
            }
        }
    }
    assert forall|x: Seq<char>, y: Seq<char>| #[trigger] leq(x, y) || #[trigger] leq(y, x) by {
        if chars_lt(y, x) && chars_lt(x, y) {
            lemma_chars_lt_transitive(x, y, x);
            lemma_chars_lt_irreflexive(x);
        }
    }
}

/// Whether `a` sorts before `b`.
pub fn str_lt(a: &str, b: &str) -> (r: bool)
    ensures
        r == chars_lt(a@, b@),
{
    let x = chars_of(a);
    let y = chars_of(b);
    match compare_chars(&x, &y) {
        Rank::Before => true,
        _ => false,
    }
}

/// `v` sorted ascending, as `Vec::sort` on strings leaves it.
pub fn sort_strings(v: Vec<String>) -> (r: Vec<String>)
    ensures
        strings_view(r@) == strings_view(v@).sort_by(chars_leq()),
{
    let ghost leq = chars_leq();
    proof {
        lemma_chars_leq_total();
    }
    let mut out: Vec<String> = Vec::new();
    let mut k: usize = 0;
    proof {
        assert(strings_view(out@) =~= strings_view(v@).take(0));
    }
    while k < v.len()
        invariant
            leq == chars_leq(),
            total_ordering(leq),
            k <= v@.len(),
            sorted_by(strings_view(out@), leq),
            strings_view(out@).to_multiset() == strings_view(v@).take(k as int).to_multiset(),
        decreases v.len() - k,
    {
        let x = v[k].clone();
        let mut pos: usize = 0;
        while pos < out.len() && !str_lt(x.as_str(), out[pos].as_str())
            invariant
                leq == chars_leq(),
                pos <= out@.len(),
                forall|j: int| 0 <= j < pos ==> leq(#[trigger] out@[j]@, x@),
            decreases out.len() - pos,
        {
            pos += 1;
        }
        let ghost before = strings_view(out@);
        proof {
            assert forall|j: int| pos <= j < before.len() implies leq(x@, #[trigger] before[j]) by {
                assert(chars_lt(x@, before[pos as int]));
                if j > pos {
                    assert(leq(before[pos as int], before[j]));
                    if chars_lt(before[j], x@) {
                        lemma_chars_lt_transitive(before[j], x@, before[pos as int]);
                    }
                }
                if chars_lt(before[j], x@) {
                    lemma_chars_lt_transitive(x@, before[j], x@);
                    lemma_chars_lt_irreflexive(x@);
                }
            }
        }
        out.insert(pos, x);
        proof {
            let after = strings_view(out@);
            assert(after =~= before.insert(pos as int, v@[k as int]@));
            assert forall|i: int, j: int| 0 <= i < j < after.len() implies #[trigger] leq(after[i], after[j]) by {
                if j < pos {
                } else if j == pos {
                    assert(after[i] == before[i]);
                } else if i < pos {
                    assert(after[j] == before[j - 1]);
                    assert(leq(before[i], x@));
                    assert(leq(x@, before[j - 1]));
                } else if i == pos {
                    assert(after[j] == before[j - 1]);
                } else {
                    assert(after[i] == before[i - 1] && after[j] == before[j - 1]);
                }
            }
            vstd::seq_lib::to_multiset_insert(before, pos as int, x@);
            assert(strings_view(v@).take(k + 1) =~= strings_view(v@).take(k as int).push(v@[k as int]@));
            vstd::seq_lib::to_multiset_build(strings_view(v@).take(k as int), v@[k as int]@);
        }
        k += 1;
    }
    proof {
        assert(strings_view(v@).take(k as int) =~= strings_view(v@));
        strings_view(v@).lemma_sort_by_ensures(leq);
        vstd::seq_lib::lemma_sorted_unique(strings_view(out@), strings_view(v@).sort_by(leq), leq);
    }
    out
}

pub fn str_eq(a: &str, b: &str) -> (r: bool)
    ensures
        r == (a@ == b@),
{
    eq_chars(&chars_of(a), &chars_of(b))
}

/// First index of `x` in `s`.
pub open spec fn index_of(s: Seq<Seq<char>>, x: Seq<char>) -> Option<int>
    decreases s.len(),
{
    if s.len() == 0 {
        None
    } else {
        match index_of(s.drop_last(), x) {
            Some(i) => Some(i),
            None => if s.last() == x {
                Some(s.len() - 1)
            } else {
                None
            },
        }
    }
}

pub proof fn lemma_index_of(s: Seq<Seq<char>>, x: Seq<char>)
    ensures
        match index_of(s, x) {
            Some(i) => 0 <= i < s.len() && s[i] == x && forall|j: int| 0 <= j < i ==> s[j] != x,
            None => !s.contains(x),
        },
    decreases s.len(),
{
    if s.len() > 0 {
        lemma_index_of(s.drop_last(), x);
        assert forall|j: int| 0 <= j < s.len() - 1 implies s[j] == s.drop_last()[j] by {}
        if index_of(s.drop_last(), x) is None && s.last() != x {
            assert forall|j: int| 0 <= j < s.len() implies s[j] != x by {
                if j < s.len() - 1 {
                    assert(!s.drop_last().contains(x));
                    assert(s.drop_last()[j] != x);
                }
            }
        }
    }
}

/// `s` without the elements equal to `x`, order kept.
pub open spec fn remove_all(s: Seq<Seq<char>>, x: Seq<char>) -> Seq<Seq<char>>
    decreases s.len(),
{
    if s.len() == 0 {
        Seq::empty()
    } else {
        let p = remove_all(s.drop_last(), x);
        if s.last() == x {
            p
        } else {
            p.push(s.last())
        }
    }
}

pub proof fn lemma_remove_all_absent(s: Seq<Seq<char>>, x: Seq<char>)
    requires
        !s.contains(x),
    ensures
        remove_all(s, x) == s,
    decreases s.len(),
{
    if s.len() > 0 {
        assert(!s.drop_last().contains(x)) by {
            if s.drop_last().contains(x) {
                let j = choose|j: int| 0 <= j < s.drop_last().len() && s.drop_last()[j] == x;
                assert(s[j] == x);
            }
        }
        lemma_remove_all_absent(s.drop_last(), x);
        assert(s.last() != x) by {
            assert(s[s.len() - 1] == s.last());
        }
        assert(s.drop_last().push(s.last()) =~= s);
    }
}

pub proof fn lemma_remove_all_len(s: Seq<Seq<char>>, x: Seq<char>)
    ensures
        remove_all(s, x).len() <= s.len(),
        remove_all(s, x).len() == s.len() <==> !s.contains(x),
        !remove_all(s, x).contains(x),
    decreases s.len(),
{
    if s.len() > 0 {
        lemma_remove_all_len(s.drop_last(), x);
        let p = remove_all(s.drop_last(), x);
        if s.drop_last().contains(x) {
            let j = choose|j: int| 0 <= j < s.drop_last().len() && s.drop_last()[j] == x;
            assert(s[j] == x);
        }
        if s.contains(x) && !s.drop_last().contains(x) {
            let j = choose|j: int| 0 <= j < s.len() && s[j] == x;
            if j < s.len() - 1 {
                assert(s.drop_last()[j] == x);
            }
        }
        if s.last() != x {
            assert forall|k: int| 0 <= k < p.push(s.last()).len() implies p.push(s.last())[k]
                != x by {
                if k < p.len() {
                    assert(!p.contains(x));
                    assert(p[k] != x);
                }
            }
        }
    }
}

/// Push a string onto a list and keep track of the character view.
pub fn push_string(v: &mut Vec<String>, s: String)
    ensures
        final(v).deep_view() == old(v).deep_view().push(s@),
{
    v.push(s);
    proof {
        assert(final(v).deep_view() =~= old(v).deep_view().push(s@));
    }
}

/// An owned copy of a list of strings.
pub fn to_strings(v: &[&str]) -> (r: Vec<String>)
    ensures
        r.deep_view() == v.deep_view(),
{
    let mut r: Vec<String> = Vec::new();
    let mut i: usize = 0;
    while i < v.len()
        invariant
            i <= v@.len(),
            r.deep_view() == v.deep_view().take(i as int),
        decreases v.len() - i,
    {
        push_string(&mut r, String::from_str(v[i]));
        i += 1;
        proof {
            assert(v.deep_view().take(i as int) =~= v.deep_view().take(i - 1).push(v@[i - 1]@));
        }
    }
    proof {
        assert(v.deep_view().take(v@.len() as int) =~= v.deep_view());
    }
    r
}

/// A copy of `v[lo..hi]`.
pub fn clone_range(v: &[String], lo: usize, hi: usize) -> (r: Vec<String>)
    requires
        lo <= hi <= v@.len(),
    ensures
        r.deep_view() == v.deep_view().subrange(lo as int, hi as int),
{
    let mut r: Vec<String> = Vec::new();
    let mut i = lo;
    while i < hi
        invariant
            lo <= i <= hi <= v@.len(),
            r.deep_view() == v.deep_view().subrange(lo as int, i as int),
        decreases hi - i,
    {
        push_string(&mut r, v[i].clone());
        i += 1;
        proof {
            assert(v.deep_view().subrange(lo as int, i as int) =~= v.deep_view().subrange(
                lo as int,
                i - 1,
            ).push(v@[i - 1]@));
        }
    }
    r
}

/// Position of `x` in `v`.
pub fn position(v: &[String], x: &str) -> (r: Option<usize>)
    ensures
        match r {
            Some(i) => index_of(v.deep_view(), x@) == Some(i as int) && i < v@.len(),
            None => index_of(v.deep_view(), x@) is None,
        },
{
    proof {
        lemma_index_of(v.deep_view(), x@);
    }
    let mut i: usize = 0;
    while i < v.len()
        invariant
            i <= v@.len(),
            forall|j: int| 0 <= j < i ==> v.deep_view()[j] != x@,
            match index_of(v.deep_view(), x@) {
                Some(k) => 0 <= k < v@.len() && v.deep_view()[k] == x@ && forall|j: int|
                    0 <= j < k ==> v.deep_view()[j] != x@,
                None => !v.deep_view().contains(x@),
            },
        decreases v.len() - i,
    {
        if str_eq(v[i].as_str(), x) {
            proof {
                if let Some(k) = index_of(v.deep_view(), x@) {
                    assert(k == i);
                } else {
                    assert(v.deep_view()[i as int] == x@);
                }
            }
            return Some(i);
        }
        i += 1;
    }
    proof {
        if let Some(k) = index_of(v.deep_view(), x@) {
            assert(v.deep_view()[k] != x@);
        }
    }
    None
}

/// Whether `x` occurs in `v`.
pub fn contains_str(v: &[String], x: &str) -> (r: bool)
    ensures
        r == v.deep_view().contains(x@),
{
    proof {
        lemma_index_of(v.deep_view(), x@);
    }
    let r = position(v, x).is_some();
    proof {
        if let Some(k) = index_of(v.deep_view(), x@) {
            assert(v.deep_view()[k] == x@);
        }
    }
    r
}

} // verus!
