//! Background overlay matcher: a designated top-level sub-tree, found by a
//! fixed naming convention, contributes extra nodes to a selection by exact,
//! case-sensitive name match.
//!
//! For every node already selected, every direct child of the overlay
//! container bearing the same name is pulled in: a matching leaf is added
//! itself, while a matching group contributes all of its children instead of
//! the group node. A tree with no overlay container makes extension a no-op,
//! not a failure. Additions are deduplicated, since a selection is a set.
use vstd::prelude::*;

verus! {

use crate::select::Selection;
use crate::tree::AssetTree;
use crate::tree::NodeKind;
use crate::tree::name_eq;

broadcast use vstd::seq_lib::lemma_seq_contains_after_push;

/// The reserved name that designates the overlay container slot.
pub open spec fn overlay_marker() -> Seq<char> {
    "_backgrounds"@
}

/// The display name of node `i`.
pub open spec fn node_name(tree: AssetTree, i: int) -> Seq<char> {
    tree.nodes@[i].name@
}

/// The first top-level node at or after slot `k` named as the overlay
/// container, as an arena index.
pub open spec fn overlay_container_from(tree: AssetTree, k: int) -> Option<usize>
    decreases tree.roots@.len() - k,
{
    if k < 0 || k >= tree.roots@.len() {
        None
    } else if node_name(tree, tree.roots@[k] as int) == overlay_marker() {
        Some(tree.roots@[k])
    } else {
        overlay_container_from(tree, k + 1)
    }
}

/// The overlay container: the first top-level node carrying the reserved
/// name, if any slot does.
pub open spec fn overlay_container(tree: AssetTree) -> Option<usize> {
    overlay_container_from(tree, 0)
}

/// If no slot before `i` carries the marker and slot `i` does, the container
/// is slot `i`'s node.
pub proof fn lemma_overlay_container_here(tree: AssetTree, k: int, i: int)
    requires
        0 <= k <= i < tree.roots@.len(),
        forall|j: int|
            0 <= j < i ==> node_name(tree, #[trigger] tree.roots@[j] as int) != overlay_marker(),
        node_name(tree, tree.roots@[i] as int) == overlay_marker(),
    ensures
        overlay_container_from(tree, k) == Some(tree.roots@[i]),
    decreases i - k,
{
    if k < i {
        lemma_overlay_container_here(tree, k + 1, i);
    }
}

/// If no slot at or after `k` carries the marker, there is no container.
pub proof fn lemma_overlay_container_none(tree: AssetTree, k: int)
    requires
        forall|j: int|
            k <= j < tree.roots@.len() ==> node_name(tree, #[trigger] tree.roots@[j] as int)
                != overlay_marker(),
    ensures
        overlay_container_from(tree, k) is None,
    decreases tree.roots@.len() - k,
{
    if 0 <= k < tree.roots@.len() {
        lemma_overlay_container_none(tree, k + 1);
    }
}

/// What a matched overlay child contributes: a group's children, or the leaf
/// itself.
pub open spec fn expansion(tree: AssetTree, d: int) -> Seq<usize> {
    if tree.nodes@[d].kind == NodeKind::Group {
        tree.children_of(d)
    } else {
        seq![d as usize]
    }
}

/// The set a sequence of member indices holds.
pub open spec fn members_set(s: Seq<usize>) -> Set<usize> {
    Set::new(|x: usize| s.contains(x))
}

/// Everything the overlay container contributes for one selected node's
/// name: the expansions of its direct children among the first `k` whose
/// name equals `name`.
pub open spec fn matches_upto(tree: AssetTree, ov: int, name: Seq<char>, k: int) -> Set<usize> {
    Set::new(
        |x: usize|
            exists|j: int|
                0 <= j < k && node_name(tree, #[trigger] tree.children_of(ov)[j] as int) == name
                    && expansion(tree, tree.children_of(ov)[j] as int).contains(x),
    )
}

/// Everything the overlay container contributes for one selected node's
/// name.
pub open spec fn name_matches(tree: AssetTree, ov: int, name: Seq<char>) -> Set<usize> {
    matches_upto(tree, ov, name, tree.children_of(ov).len() as int)
}

/// Everything the overlay step adds for the first `mi` members.
pub open spec fn additions_upto(tree: AssetTree, ov: int, members: Seq<usize>, mi: int) -> Set<
    usize,
> {
    Set::new(
        |x: usize|
            exists|q: int|
                0 <= q < mi && name_matches(
                    tree,
                    ov,
                    node_name(tree, #[trigger] members[q] as int),
                ).contains(x),
    )
}

/// Everything the overlay step adds to a selection: for every selected node,
/// the expansion of every direct container child sharing its name. Empty
/// when the tree has no overlay container.
pub open spec fn overlay_additions(tree: AssetTree, members: Set<usize>) -> Set<usize> {
    match overlay_container(tree) {
        None => Set::empty(),
        Some(ov) => Set::new(
            |x: usize|
                exists|m: usize|
                    #[trigger] members.contains(m) && name_matches(
                        tree,
                        ov as int,
                        node_name(tree, m as int),
                    ).contains(x),
        ),
    }
}

/// The extended selection, as a set: the members plus the overlay additions.
pub open spec fn extended_set(tree: AssetTree, members: Set<usize>) -> Set<usize> {
    members.union(overlay_additions(tree, members))
}

/// A container found by the naming scan is an in-range arena index.
pub proof fn lemma_overlay_container_in_range(tree: AssetTree, k: int)
    requires
        tree.wf(),
    ensures
        overlay_container_from(tree, k) is Some ==> (overlay_container_from(tree, k)->Some_0
            as int) < tree.len(),
    decreases tree.roots@.len() - k,
{
    if 0 <= k < tree.roots@.len() {
        lemma_overlay_container_in_range(tree, k + 1);
    }
}

/// The seq-indexed additions agree with the set-level ones.
proof fn lemma_additions_agree(tree: AssetTree, ov: usize, members: Seq<usize>)
    requires
        overlay_container(tree) == Some(ov),
    ensures
        additions_upto(tree, ov as int, members, members.len() as int) == overlay_additions(
            tree,
            members_set(members),
        ),
{
    let a = additions_upto(tree, ov as int, members, members.len() as int);
    let b = overlay_additions(tree, members_set(members));
    assert forall|x: usize| a.contains(x) implies b.contains(x) by {
        let q = choose|q: int|
            0 <= q < members.len() && name_matches(
                tree,
                ov as int,
                node_name(tree, #[trigger] members[q] as int),
            ).contains(x);
        assert(members_set(members).contains(members[q]));
    }
    assert forall|x: usize| b.contains(x) implies a.contains(x) by {
        let m = choose|m: usize|
            #[trigger] members_set(members).contains(m) && name_matches(
                tree,
                ov as int,
                node_name(tree, m as int),
            ).contains(x);
        assert(members.contains(m));
        let q = choose|q: int| 0 <= q < members.len() && members[q] == m;
        assert(name_matches(tree, ov as int, node_name(tree, members[q] as int)).contains(x));
    }
    assert(a =~= b);
}

/// Whether every direct child of the overlay container is a leaf. Holds
/// vacuously when the tree has no container.
pub open spec fn overlay_children_are_leaves(tree: AssetTree) -> bool {
    match overlay_container(tree) {
        None => true,
        Some(ov) => forall|k: int|
            0 <= k < tree.children_of(ov as int).len() ==> tree.nodes@[#[trigger] tree.children_of(
                ov as int,
            )[k] as int].kind == NodeKind::Layer,
    }
}

/// Overlay idempotence, at the level of selection sets: extending an
/// already-extended selection adds nothing, provided every direct child of
/// the overlay container is a leaf. (A matched overlay group hands in its
/// children, whose names were never matched; one of those names can match a
/// further overlay child, so idempotence is owed only for leaf overlays.)
pub proof fn lemma_extended_set_idempotent(tree: AssetTree, base: Set<usize>)
    requires
        tree.wf(),
        overlay_children_are_leaves(tree),
    ensures
        extended_set(tree, extended_set(tree, base)) == extended_set(tree, base),
{
    match overlay_container(tree) {
        None => {
            assert(extended_set(tree, extended_set(tree, base)) =~= extended_set(tree, base));
        },
        Some(ov) => {
            lemma_overlay_container_in_range(tree, 0);
            let e = extended_set(tree, base);
            let a2 = overlay_additions(tree, e);
            assert forall|x: usize| a2.contains(x) implies e.contains(x) by {
                let m = choose|m: usize|
                    #[trigger] e.contains(m) && name_matches(
                        tree,
                        ov as int,
                        node_name(tree, m as int),
                    ).contains(x);
                if base.contains(m) {
                    assert(overlay_additions(tree, base).contains(x));
                } else {
                    // m itself came in by a match for some base member m0;
                    // leaf overlays make m a container child with m0's name
                    let m0 = choose|m0: usize|
                        #[trigger] base.contains(m0) && name_matches(
                            tree,
                            ov as int,
                            node_name(tree, m0 as int),
                        ).contains(m);
                    let j = choose|j: int|
                        0 <= j < tree.children_of(ov as int).len() && node_name(
                            tree,
                            #[trigger] tree.children_of(ov as int)[j] as int,
                        ) == node_name(tree, m0 as int) && expansion(
                            tree,
                            tree.children_of(ov as int)[j] as int,
                        ).contains(m);
                    let d = tree.children_of(ov as int)[j];
                    assert(tree.nodes@[d as int].kind == NodeKind::Layer);
                    assert(expansion(tree, d as int) =~= seq![d]);
                    assert(m == d);
                    assert(node_name(tree, m as int) == node_name(tree, m0 as int));
                    assert(name_matches(tree, ov as int, node_name(tree, m0 as int)).contains(x));
                    assert(overlay_additions(tree, base).contains(x));
                }
            }
            assert(extended_set(tree, e) =~= e);
        },
    }
}

/// A distinct sequence that extends `s` in place without changing its set is
/// `s` itself.
pub proof fn lemma_same_set_extension_is_equal(s: Seq<usize>, t: Seq<usize>)
    requires
        t.len() >= s.len(),
        t.take(s.len() as int) == s,
        forall|k1: int, k2: int| 0 <= k1 < k2 < t.len() ==> t[k1] != t[k2],
        members_set(t) == members_set(s),
    ensures
        t == s,
{
    if t.len() > s.len() {
        let x = t[s.len() as int];
        assert(t.contains(x));
        assert(members_set(t).contains(x));
        assert(s.contains(x));
        let j = choose|j: int| 0 <= j < s.len() && s[j] == x;
        assert(t.take(s.len() as int)[j] == t[j]);
        assert(t[j] == t[s.len() as int]);
        assert(false);
    }
    assert(t =~= s);
}

/// Overlay idempotence: extending an already-extended selection with the
/// same overlay step returns it member for member, with no duplicate growth,
/// provided every direct child of the overlay container is a leaf. `e` is
/// any selection the overlay step produced, and `r` is what the step
/// produces from `e`, each described by `extend_with_overlays`' contract.
pub proof fn lemma_overlay_idempotent(
    tree: AssetTree,
    base: Set<usize>,
    e: Selection,
    r: Selection,
)
    requires
        tree.wf(),
        overlay_children_are_leaves(tree),
        members_set(e.members@) == extended_set(tree, base),
        r.wf(tree),
        r.members@.len() >= e.members@.len(),
        r.members@.take(e.members@.len() as int) == e.members@,
        members_set(r.members@) == extended_set(tree, members_set(e.members@)),
    ensures
        r.members@ == e.members@,
{
    lemma_extended_set_idempotent(tree, base);
    lemma_same_set_extension_is_equal(e.members@, r.members@);
}

/// Whether a top-level node belongs to the content slots: everything but a
/// group carrying the reserved overlay name.
pub open spec fn is_content_slot(tree: AssetTree, ri: usize) -> bool {
    !(tree.nodes@[ri as int].kind == NodeKind::Group && node_name(tree, ri as int)
        == overlay_marker())
}

/// The content slots among the first `k` top-level nodes, in order.
pub open spec fn content_slots_upto(tree: AssetTree, k: int) -> Seq<usize>
    decreases k,
{
    if k <= 0 {
        Seq::empty()
    } else {
        let pre = content_slots_upto(tree, k - 1);
        if is_content_slot(tree, tree.roots@[k - 1]) {
            pre.push(tree.roots@[k - 1])
        } else {
            pre
        }
    }
}

/// The top-level nodes that carry content: every slot except a group named
/// as the overlay container, in slot order.
pub fn non_overlay_slots(tree: &AssetTree) -> (r: Vec<usize>)
    requires
        tree.wf(),
    ensures
        r@ == content_slots_upto(*tree, tree.roots@.len() as int),
{
    let marker: String = String::from_str("_backgrounds");
    let mut r: Vec<usize> = Vec::new();
    let slot_count = tree.roots.len();
    let mut k: usize = 0;
    while k < slot_count
        invariant
            k <= slot_count,
            slot_count == tree.roots@.len(),
            tree.wf(),
            marker@ == overlay_marker(),
            r@ == content_slots_upto(*tree, k as int),
        decreases slot_count - k,
    {
        let ri = tree.roots[k];
        let named = name_eq(&tree.nodes[ri].name, &marker);
        let is_group = match tree.nodes[ri].kind {
            NodeKind::Group => true,
            NodeKind::Layer => false,
        };
        if !(is_group && named) {
            r.push(ri);
        }
        k = k + 1;
    }
    r
}

/// Appends a member unless the selection already holds it.
fn push_if_absent(members: &mut Vec<usize>, x: usize)
    ensures
        final(members)@ == if old(members)@.contains(x) {
            old(members)@
        } else {
            old(members)@.push(x)
        },
{
    let mut k: usize = 0;
    while k < members.len()
        invariant
            k <= members@.len(),
            members@ == old(members)@,
            forall|j: int| 0 <= j < k ==> members@[j] != x,
        decreases members@.len() - k,
    {
        if members[k] == x {
            return ;
        }
        k = k + 1;
    }
    members.push(x);
}

/// Finds the overlay container: the first top-level node named by the
/// reserved marker, if any.
pub fn find_overlay_container(tree: &AssetTree) -> (r: Option<usize>)
    requires
        tree.wf(),
    ensures
        r == overlay_container(*tree),
{
    let marker: String = String::from_str("_backgrounds");
    let mut k: usize = 0;
    let slot_count = tree.roots.len();
    while k < slot_count
        invariant
            k <= slot_count,
            slot_count == tree.roots@.len(),
            tree.wf(),
            marker@ == overlay_marker(),
            forall|j: int|
                0 <= j < k ==> node_name(*tree, #[trigger] tree.roots@[j] as int)
                    != overlay_marker(),
        decreases slot_count - k,
    {
        let ri = tree.roots[k];
        if name_eq(&tree.nodes[ri].name, &marker) {
            proof {
                lemma_overlay_container_here(*tree, 0, k as int);
            }
            return Some(ri);
        }
        k = k + 1;
    }
    proof {
        lemma_overlay_container_none(*tree, 0);
    }
    None
}

/// Extends a selection with the overlay step: every direct child of the
/// overlay container whose name equals a selected node's name contributes
/// its expansion, without duplicating members already held. The input
/// members stay in place, in order, and a tree with no overlay container
/// returns the selection unchanged.
pub fn extend_with_overlays(tree: &AssetTree, sel: &Selection) -> (r: Selection)
    requires
        tree.wf(),
        sel.wf(*tree),
    ensures
        r.wf(*tree),
        r.members@.len() >= sel.members@.len(),
        r.members@.take(sel.members@.len() as int) == sel.members@,
        members_set(r.members@) == extended_set(*tree, members_set(sel.members@)),
        overlay_container(*tree) is None ==> r.members@ == sel.members@,
{
    let mut members: Vec<usize> = Vec::new();
    let mut c: usize = 0;
    while c < sel.members.len()
        invariant
            c <= sel.members@.len(),
            members@ == sel.members@.take(c as int),
        decreases sel.members@.len() - c,
    {
        members.push(sel.members[c]);
        proof {
            assert(sel.members@.take(c + 1) =~= sel.members@.take(c as int).push(
                sel.members@[c as int],
            ));
        }
        c = c + 1;
    }
    proof {
        assert(sel.members@.take(sel.members@.len() as int) =~= sel.members@);
    }
    let ov_opt = find_overlay_container(tree);
    let ov: usize = match ov_opt {
        None => {
            proof {
                assert(members_set(members@) =~= extended_set(*tree, members_set(sel.members@)));
            }
            return Selection { members };
        },
        Some(ov) => ov,
    };
    proof {
        lemma_overlay_container_in_range(*tree, 0);
    }
    let base_len = sel.members.len();
    let mut mi: usize = 0;
    while mi < base_len
        invariant
            mi <= base_len,
            base_len == sel.members@.len(),
            tree.wf(),
            sel.wf(*tree),
            overlay_container(*tree) == Some(ov),
            ov < tree.len(),
            members@.len() >= sel.members@.len(),
            members@.take(sel.members@.len() as int) == sel.members@,
            forall|k: int| 0 <= k < members@.len() ==> (#[trigger] members@[k]) < tree.len(),
            forall|k1: int, k2: int|
                0 <= k1 < k2 < members@.len() ==> members@[k1] != members@[k2],
            members_set(members@) == members_set(sel.members@).union(
                additions_upto(*tree, ov as int, sel.members@, mi as int),
            ),
        decreases base_len - mi,
    {
        let m = sel.members[mi];
        let child_count = tree.nodes[ov].children.len();
        let mut k: usize = 0;
        while k < child_count
            invariant
                k <= child_count,
                mi < base_len,
                base_len == sel.members@.len(),
                tree.wf(),
                sel.wf(*tree),
                overlay_container(*tree) == Some(ov),
                ov < tree.len(),
                m == sel.members@[mi as int],
                m < tree.len(),
                child_count == tree.children_of(ov as int).len(),
                members@.len() >= sel.members@.len(),
                members@.take(sel.members@.len() as int) == sel.members@,
                forall|j: int| 0 <= j < members@.len() ==> (#[trigger] members@[j]) < tree.len(),
                forall|j1: int, j2: int|
                    0 <= j1 < j2 < members@.len() ==> members@[j1] != members@[j2],
                members_set(members@) == members_set(sel.members@).union(
                    additions_upto(*tree, ov as int, sel.members@, mi as int),
                ).union(matches_upto(*tree, ov as int, node_name(*tree, m as int), k as int)),
            decreases child_count - k,
        {
            let d = tree.nodes[ov].children[k];
            let ghost pre_set = members_set(members@);
            if name_eq(&tree.nodes[d].name, &tree.nodes[m].name) {
                match tree.nodes[d].kind {
                    NodeKind::Group => {
                        let exp_len = tree.nodes[d].children.len();
                        let mut e: usize = 0;
                        while e < exp_len
                            invariant
                                e <= exp_len,
                                tree.wf(),
                                d < tree.len(),
                                tree.nodes@[d as int].kind == NodeKind::Group,
                                exp_len == tree.children_of(d as int).len(),
                                members@.len() >= sel.members@.len(),
                                members@.take(sel.members@.len() as int) == sel.members@,
                                forall|j: int|
                                    0 <= j < members@.len() ==> (#[trigger] members@[j])
                                        < tree.len(),
                                forall|j1: int, j2: int|
                                    0 <= j1 < j2 < members@.len() ==> members@[j1] != members@[j2],
                                members_set(members@) == pre_set.union(
                                    members_set(expansion(*tree, d as int).take(e as int)),
                                ),
                            decreases exp_len - e,
                        {
                            let x = tree.nodes[d].children[e];
                            let ghost before = members@;
                            push_if_absent(&mut members, x);
                            proof {
                                if before.contains(x) {
                                    assert(members@.take(sel.members@.len() as int)
                                        == sel.members@);
                                } else {
                                    assert(members@.take(sel.members@.len() as int) =~= before.take(
                                        sel.members@.len() as int,
                                    ));
                                }
                                let exp = expansion(*tree, d as int);
                                assert(exp.take(e + 1) =~= exp.take(e as int).push(x));
                                assert(members_set(exp.take(e as int).push(x)) =~= members_set(
                                    exp.take(e as int),
                                ).insert(x));
                                if !before.contains(x) {
                                    assert(members_set(before.push(x)) =~= members_set(
                                        before,
                                    ).insert(x));
                                }
                                assert(members_set(members@) =~= pre_set.union(
                                    members_set(exp.take(e + 1)),
                                ));
                            }
                            e = e + 1;
                        }
                        proof {
                            assert(expansion(*tree, d as int).take(exp_len as int) =~= expansion(
                                *tree,
                                d as int,
                            ));
                        }
                    },
                    NodeKind::Layer => {
                        let ghost before = members@;
                        push_if_absent(&mut members, d);
                        proof {
                            if before.contains(d) {
                                assert(members@.take(sel.members@.len() as int) == sel.members@);
                            } else {
                                assert(members@.take(sel.members@.len() as int) =~= before.take(
                                    sel.members@.len() as int,
                                ));
                            }
                            assert(expansion(*tree, d as int) =~= seq![d]);
                            assert(members_set(members@) =~= pre_set.union(
                                members_set(expansion(*tree, d as int)),
                            ));
                        }
                    },
                }
            }
            proof {
                let name = node_name(*tree, m as int);
                let prev = matches_upto(*tree, ov as int, name, k as int);
                let next = matches_upto(*tree, ov as int, name, k + 1);
                if node_name(*tree, d as int) == name {
                    assert forall|x: usize| next.contains(x) implies pre_set.union(
                        members_set(expansion(*tree, d as int)),
                    ).contains(x) by {
                        let j = choose|j: int|
                            0 <= j < k + 1 && node_name(
                                *tree,
                                #[trigger] tree.children_of(ov as int)[j] as int,
                            ) == name && expansion(
                                *tree,
                                tree.children_of(ov as int)[j] as int,
                            ).contains(x);
                        if j < k {
                            assert(prev.contains(x));
                        }
                    }
                    assert forall|x: usize|
                        pre_set.union(members_set(expansion(*tree, d as int))).contains(x) implies
                        pre_set.union(next).contains(x) by {
                        if members_set(expansion(*tree, d as int)).contains(x) {
                            assert(tree.children_of(ov as int)[k as int] == d);
                            assert(next.contains(x));
                        }
                    }
                    assert(members_set(members@) =~= members_set(sel.members@).union(
                        additions_upto(*tree, ov as int, sel.members@, mi as int),
                    ).union(next));
                } else {
                    assert forall|x: usize| next.contains(x) implies prev.contains(x) by {
                        let j = choose|j: int|
                            0 <= j < k + 1 && node_name(
                                *tree,
                                #[trigger] tree.children_of(ov as int)[j] as int,
                            ) == name && expansion(
                                *tree,
                                tree.children_of(ov as int)[j] as int,
                            ).contains(x);
                        assert(j < k);
                    }
                    assert(next =~= prev);
                    assert(members_set(members@) =~= members_set(sel.members@).union(
                        additions_upto(*tree, ov as int, sel.members@, mi as int),
                    ).union(next));
                }
            }
            k = k + 1;
        }
        proof {
            let name = node_name(*tree, m as int);
            let full = name_matches(*tree, ov as int, name);
            let prev_add = additions_upto(*tree, ov as int, sel.members@, mi as int);
            let next_add = additions_upto(*tree, ov as int, sel.members@, mi + 1);
            assert forall|x: usize| next_add.contains(x) implies prev_add.union(full).contains(
                x,
            ) by {
                let q = choose|q: int|
                    0 <= q < mi + 1 && name_matches(
                        *tree,
                        ov as int,
                        node_name(*tree, #[trigger] sel.members@[q] as int),
                    ).contains(x);
                if q < mi {
                    assert(prev_add.contains(x));
                }
            }
            assert forall|x: usize| prev_add.union(full).contains(x) implies next_add.contains(
                x,
            ) by {
                if prev_add.contains(x) {
                    let q = choose|q: int|
                        0 <= q < mi && name_matches(
                            *tree,
                            ov as int,
                            node_name(*tree, #[trigger] sel.members@[q] as int),
                        ).contains(x);
                    assert(0 <= q < mi + 1);
                } else {
                    assert(name_matches(
                        *tree,
                        ov as int,
                        node_name(*tree, sel.members@[mi as int] as int),
                    ).contains(x));
                }
            }
            assert(members_set(members@) =~= members_set(sel.members@).union(next_add));
        }
        mi = mi + 1;
    }
    proof {
        lemma_additions_agree(*tree, ov, sel.members@);
    }
    Selection { members }
}

} // verus!
