//! Visibility resolver: maps a decoded visibility sequence onto the tree's
//! top-level slots, selecting zero, one, or all children per slot.
//!
//! A value of `0` selects nothing, the sentinel selects every direct child of
//! the slot, and `1..=child_count` selects the child at that one-based index.
//! Any other value is a fatal validation error: the resolver never clamps,
//! because a clamped pick would render a variant other than the one the
//! token's issuer asked for. A sequence shorter than the slot list leaves the
//! remaining slots empty; extra trailing values are ignored.
use vstd::prelude::*;

verus! {

use crate::AssetError;
use crate::tree::AssetTree;

/// The reserved visibility value meaning "select all children of this slot".
pub const SENTINEL: u8 = 255;

/// An ordered set of selected nodes, held as arena indices into the tree the
/// selection was resolved against. Members are distinct: a selection is a
/// set, and extending it never duplicates a node.
#[derive(Debug, Clone)]
pub struct Selection {
    pub members: Vec<usize>,
}

impl Selection {
    /// Members are in-range arena indices, each held once.
    pub open spec fn wf(self, tree: AssetTree) -> bool {
        &&& forall|k: int|
            0 <= k < self.members@.len() ==> (#[trigger] self.members@[k]) < tree.len()
        &&& forall|k1: int, k2: int|
            0 <= k1 < k2 < self.members@.len() ==> self.members@[k1] != self.members@[k2]
    }
}

/// The visibility value a sequence assigns to slot `i`: `0` past its end.
pub open spec fn slot_value(vis: Seq<u8>, i: int) -> u8 {
    if i < vis.len() {
        vis[i]
    } else {
        0
    }
}

/// The children list of slot `s` (the `s`-th top-level node).
pub open spec fn slot_children(tree: AssetTree, s: int) -> Seq<usize> {
    tree.children_of(tree.roots@[s] as int)
}

/// Whether value `v` is valid for slot `s`: nothing, everything, or a
/// one-based index no larger than the slot's child count.
pub open spec fn slot_ok(tree: AssetTree, s: int, v: u8) -> bool {
    v == 0 || v == SENTINEL || v <= slot_children(tree, s).len()
}

/// What slot `s` contributes under value `v`: nothing, all children, or the
/// child at one-based index `v`.
pub open spec fn slot_contribution(tree: AssetTree, s: int, v: u8) -> Seq<usize> {
    if v == 0 {
        Seq::empty()
    } else if v == SENTINEL {
        slot_children(tree, s)
    } else {
        seq![slot_children(tree, s)[v - 1]]
    }
}

/// The concatenated contributions of the first `n` slots.
pub open spec fn resolved_prefix(tree: AssetTree, vis: Seq<u8>, n: int) -> Seq<usize>
    decreases n,
{
    if n <= 0 {
        Seq::empty()
    } else {
        resolved_prefix(tree, vis, n - 1) + slot_contribution(
            tree,
            n - 1,
            slot_value(vis, n - 1),
        )
    }
}

/// The selection a visibility sequence resolves to: every slot's
/// contribution, in slot order.
pub open spec fn resolved_selection(tree: AssetTree, vis: Seq<u8>) -> Seq<usize> {
    resolved_prefix(tree, vis, tree.roots@.len() as int)
}

/// The error reported for slot `s`: the offending value and the slot's child
/// count as the valid upper bound.
pub open spec fn slot_error(tree: AssetTree, vis: Seq<u8>, s: int) -> AssetError {
    AssetError::VisibilityOutOfRange {
        slot: s as usize,
        value: slot_value(vis, s),
        limit: slot_children(tree, s).len() as usize,
    }
}

/// The first slot at or after `s` whose value is out of range.
pub open spec fn first_bad_slot_from(tree: AssetTree, vis: Seq<u8>, s: int) -> Option<int>
    decreases tree.roots@.len() - s,
{
    if s < 0 || s >= tree.roots@.len() {
        None
    } else if !slot_ok(tree, s, slot_value(vis, s)) {
        Some(s)
    } else {
        first_bad_slot_from(tree, vis, s + 1)
    }
}

/// If every slot before `i` is in range and slot `i` is not, then `i` is the
/// first bad slot.
pub proof fn lemma_first_bad_slot_here(tree: AssetTree, vis: Seq<u8>, k: int, i: int)
    requires
        0 <= k <= i < tree.roots@.len(),
        forall|j: int| 0 <= j < i ==> slot_ok(tree, j, slot_value(vis, j)),
        !slot_ok(tree, i, slot_value(vis, i)),
    ensures
        first_bad_slot_from(tree, vis, k) == Some(i),
    decreases i - k,
{
    if k < i {
        lemma_first_bad_slot_here(tree, vis, k + 1, i);
    }
}

/// Every member of a resolved prefix is an in-range child of one of the first
/// `n` slots, and no member is repeated.
pub proof fn lemma_resolved_prefix_wf(tree: AssetTree, vis: Seq<u8>, n: int)
    requires
        tree.wf(),
        0 <= n <= tree.roots@.len(),
        forall|s: int| 0 <= s < n ==> slot_ok(tree, s, slot_value(vis, s)),
    ensures
        forall|k: int|
            0 <= k < resolved_prefix(tree, vis, n).len() ==> (#[trigger] resolved_prefix(
                tree,
                vis,
                n,
            )[k]) < tree.len(),
        forall|k: int|
            0 <= k < resolved_prefix(tree, vis, n).len() ==> exists|s: int|
                0 <= s < n && tree.nodes@[#[trigger] resolved_prefix(tree, vis, n)[k] as int].parent
                    == Some(tree.roots@[s]),
        forall|k1: int, k2: int|
            0 <= k1 < k2 < resolved_prefix(tree, vis, n).len() ==> resolved_prefix(tree, vis, n)[k1]
                != resolved_prefix(tree, vis, n)[k2],
    decreases n,
{
    if n > 0 {
        lemma_resolved_prefix_wf(tree, vis, n - 1);
        let pre = resolved_prefix(tree, vis, n - 1);
        let add = slot_contribution(tree, n - 1, slot_value(vis, n - 1));
        let cur = resolved_prefix(tree, vis, n);
        assert(cur == pre + add);
        assert forall|k: int| 0 <= k < cur.len() implies (#[trigger] cur[k]) < tree.len() && exists|
            s: int,
        |
            0 <= s < n && tree.nodes@[cur[k] as int].parent == Some(tree.roots@[s]) by {
            if k < pre.len() {
                assert(cur[k] == pre[k]);
                let s0 = choose|s: int|
                    0 <= s < n - 1 && tree.nodes@[pre[k] as int].parent == Some(tree.roots@[s]);
                assert(0 <= s0 < n && tree.nodes@[cur[k] as int].parent == Some(tree.roots@[s0]));
            } else {
                assert(cur[k] == add[k - pre.len()]);
                let r = tree.roots@[n - 1] as int;
                assert(slot_children(tree, n - 1) == tree.children_of(r));
                assert(tree.nodes@[cur[k] as int].parent == Some(tree.roots@[n - 1]));
            }
        }
        assert forall|k1: int, k2: int| 0 <= k1 < k2 < cur.len() implies cur[k1] != cur[k2] by {
            if k2 < pre.len() {
                assert(cur[k1] == pre[k1] && cur[k2] == pre[k2]);
            } else if k1 >= pre.len() {
                // both inside one slot's children list, which is strictly sorted
                let r = tree.roots@[n - 1] as int;
                assert(add[k1 - pre.len()] != add[k2 - pre.len()]);
            } else {
                // an old member's parent is an earlier root, a new member's is
                // the current one, and roots are strictly increasing
                let s0 = choose|s: int|
                    0 <= s < n - 1 && tree.nodes@[pre[k1] as int].parent == Some(tree.roots@[s]);
                assert(tree.roots@[s0] != tree.roots@[n - 1]);
                assert(tree.nodes@[cur[k2] as int].parent == Some(tree.roots@[n - 1]));
            }
        }
    }
}

/// Resolves a visibility sequence against the tree's top-level slots.
///
/// Succeeds exactly when every slot's value is in range, and then returns
/// each slot's contribution in slot order; fails on the first out-of-range
/// value, reporting the slot, the value, and the slot's child count.
pub fn resolve(tree: &AssetTree, vis: &[u8]) -> (r: Result<Selection, AssetError>)
    requires
        tree.wf(),
    ensures
        match r {
            Ok(sel) => {
                &&& forall|s: int|
                    0 <= s < tree.roots@.len() ==> slot_ok(*tree, s, slot_value(vis@, s))
                &&& sel.members@ == resolved_selection(*tree, vis@)
                &&& sel.wf(*tree)
            },
            Err(e) => {
                &&& first_bad_slot_from(*tree, vis@, 0) is Some
                &&& e == slot_error(*tree, vis@, first_bad_slot_from(*tree, vis@, 0)->Some_0)
            },
        },
{
    let mut members: Vec<usize> = Vec::new();
    let slot_count = tree.roots.len();
    let mut s: usize = 0;
    while s < slot_count
        invariant
            s <= slot_count,
            slot_count == tree.roots@.len(),
            tree.wf(),
            forall|j: int| 0 <= j < s ==> slot_ok(*tree, j, slot_value(vis@, j)),
            members@ == resolved_prefix(*tree, vis@, s as int),
        decreases slot_count - s,
    {
        let v: u8 = if s < vis.len() {
            vis[s]
        } else {
            0
        };
        let root_idx = tree.roots[s];
        let child_count = tree.nodes[root_idx].children.len();
        if v == 0 {
            // nothing selected in this slot
        } else if v == SENTINEL {
            let ghost old_members = members@;
            let mut k: usize = 0;
            while k < child_count
                invariant
                    k <= child_count,
                    slot_count == tree.roots@.len(),
                    s < slot_count,
                    tree.wf(),
                    root_idx == tree.roots@[s as int],
                    child_count == slot_children(*tree, s as int).len(),
                    members@ == old_members + slot_children(*tree, s as int).take(k as int),
                decreases child_count - k,
            {
                let child = tree.nodes[root_idx].children[k];
                members.push(child);
                proof {
                    assert(slot_children(*tree, s as int).take(k + 1) =~= slot_children(
                        *tree,
                        s as int,
                    ).take(k as int).push(child));
                }
                k = k + 1;
            }
            proof {
                assert(slot_children(*tree, s as int).take(child_count as int) =~= slot_children(
                    *tree,
                    s as int,
                ));
            }
        } else if (v as usize) <= child_count {
            let child = tree.nodes[root_idx].children[(v - 1) as usize];
            members.push(child);
        } else {
            proof {
                lemma_first_bad_slot_here(*tree, vis@, 0, s as int);
            }
            return Err(
                AssetError::VisibilityOutOfRange { slot: s, value: v, limit: child_count },
            );
        }
        proof {
            assert(members@ =~= resolved_prefix(*tree, vis@, s + 1));
        }
        s = s + 1;
    }
    let sel = Selection { members };
    proof {
        lemma_resolved_prefix_wf(*tree, vis@, tree.roots@.len() as int);
    }
    Ok(sel)
}

/// Two resolutions of the same tree and token agree: any two selections that
/// satisfy `resolve`'s contract for the same inputs hold the same members.
pub proof fn lemma_resolution_deterministic(
    tree: AssetTree,
    vis: Seq<u8>,
    r1: Selection,
    r2: Selection,
)
    requires
        r1.members@ == resolved_selection(tree, vis),
        r2.members@ == resolved_selection(tree, vis),
    ensures
        r1.members@ == r2.members@,
{
}

/// Bounds, for one slot: an in-range one-based value selects exactly the
/// child at that position, zero selects nothing, and the sentinel selects
/// every child of the slot.
pub proof fn lemma_slot_bounds(tree: AssetTree, s: int, v: u8)
    requires
        0 <= s,
    ensures
        1 <= v <= slot_children(tree, s).len() && v != SENTINEL ==> slot_contribution(tree, s, v)
            =~= seq![slot_children(tree, s)[v - 1]],
        v == 0 ==> slot_contribution(tree, s, v) =~= Seq::<usize>::empty(),
        v == SENTINEL ==> slot_contribution(tree, s, v) =~= slot_children(tree, s),
{
}

/// Rejection, for one slot: a value above the slot's child count that is
/// neither zero nor the sentinel makes resolution fail with an error naming
/// that slot, its value, and the slot's child count — provided every earlier
/// slot is in range.
pub proof fn lemma_slot_rejection(tree: AssetTree, vis: Seq<u8>, s: int)
    requires
        0 <= s < tree.roots@.len(),
        forall|j: int| 0 <= j < s ==> slot_ok(tree, j, slot_value(vis, j)),
        slot_value(vis, s) > slot_children(tree, s).len(),
        slot_value(vis, s) != 0,
        slot_value(vis, s) != SENTINEL,
    ensures
        first_bad_slot_from(tree, vis, 0) == Some(s),
        slot_error(tree, vis, s) == (AssetError::VisibilityOutOfRange {
            slot: s as usize,
            value: slot_value(vis, s),
            limit: slot_children(tree, s).len() as usize,
        }),
{
    lemma_first_bad_slot_here(tree, vis, 0, s);
}

} // verus!
