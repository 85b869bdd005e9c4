//! Which tabs a context-menu close removes.

use vstd::prelude::*;
use vstd::string::*;

use crate::strs::{clone_range, index_of, position};

verus! {

/// Which other tabs a context-menu close removes.
#[derive(Clone, Copy, Debug, PartialEq, Eq)]
pub enum TabCloseScope {
    Others,
    ToTheRight,
}

pub open spec fn close_scope_spec(order: Seq<Seq<char>>, target: Seq<char>, scope: TabCloseScope) -> Seq<Seq<char>> {
    match index_of(order, target) {
        None => Seq::empty(),
        Some(ix) => match scope {
            TabCloseScope::Others => order.take(ix) + order.skip(ix + 1),
            TabCloseScope::ToTheRight => order.skip(ix + 1),
        },
    }
}

/// The panels a close command removes. `order` is the center dock's panel
/// order (tab order inside a group; groups in tree order).
pub fn panels_for_close_scope(order: &[String], target: &str, scope: TabCloseScope) -> (r: Vec<String>)
    ensures
        r.deep_view() == close_scope_spec(order.deep_view(), target@, scope),
{
    let n = order.len();
    let ix = match position(order, target) {
        None => return Vec::new(),
        Some(ix) => ix,
    };
    proof {
        assert(order.deep_view().subrange(ix + 1, n as int) =~= order.deep_view().skip(ix + 1));
        assert(order.deep_view().subrange(0, ix as int) =~= order.deep_view().take(ix as int));
    }
    match scope {
        TabCloseScope::Others => {
            let mut left = clone_range(order, 0, ix);
            let right = clone_range(order, ix + 1, n);
            let ghost l0 = left.deep_view();
            let mut i: usize = 0;
            while i < right.len()
                invariant
                    i <= right@.len(),
                    left.deep_view() == l0 + right.deep_view().take(i as int),
                decreases right.len() - i,
            {
                crate::strs::push_string(&mut left, right[i].clone());
                i += 1;
                proof {
                    assert(l0 + right.deep_view().take(i as int) =~= (l0 + right.deep_view().take(i - 1)).push(right@[i - 1]@));
                }
            }
            proof {
                assert(right.deep_view().take(right@.len() as int) =~= right.deep_view());
            }
            left
        },
        TabCloseScope::ToTheRight => clone_range(order, ix + 1, n),
    }
}

/// "Close to the right" removes a tail of what "Close others" removes, and
/// neither removes the target tab's own slot.
pub proof fn close_right_within_others(order: Seq<Seq<char>>, target: Seq<char>)
    ensures
        ({
            let others = close_scope_spec(order, target, TabCloseScope::Others);
            let right = close_scope_spec(order, target, TabCloseScope::ToTheRight);
            &&& right.len() <= others.len()
            &&& others.skip(others.len() - right.len()) == right
            &&& (order.contains(target) ==> others.len() == order.len() - 1)
        }),
{
    crate::strs::lemma_index_of(order, target);
    match index_of(order, target) {
        Some(ix) => {
            let others = order.take(ix) + order.skip(ix + 1);
            assert(others.skip(others.len() - order.skip(ix + 1).len()) =~= order.skip(ix + 1));
        },
        None => {
            assert(Seq::<Seq<char>>::empty().skip(0) =~= Seq::<Seq<char>>::empty());
        },
    }
}

} // verus!
