//! Leaf identifier resolver: expands a selection into leaf nodes only and
//! produces the membership keys an external compositor tests against.
//!
//! Every selected group is descended recursively; each leaf found is tagged
//! with the name of its immediate enclosing group, absent for a top-level
//! leaf. Two leaves sharing both names are indistinguishable by the
//! resulting keys and are selected or left out together.
use vstd::prelude::*;

verus! {

use crate::select::Selection;
use crate::tree::AssetTree;
use crate::tree::NodeKind;
use crate::tree::name_eq;

/// A comparison key for one leaf: the name of its immediate enclosing group
/// (absent for a top-level leaf) and the leaf's own name. Built fresh for
/// every resolution, never persisted.
#[derive(Debug, Clone)]
pub struct LeafIdentifier {
    pub group: Option<String>,
    pub name: String,
}

/// The key as a pair of character sequences.
pub open spec fn leaf_id_view(l: LeafIdentifier) -> (Option<Seq<char>>, Seq<char>) {
    (
        match l.group {
            Some(g) => Some(g@),
            None => None,
        },
        l.name@,
    )
}

/// The views of a key list, in order.
pub open spec fn ids_view(s: Seq<LeafIdentifier>) -> Seq<(Option<Seq<char>>, Seq<char>)> {
    s.map_values(|l: LeafIdentifier| leaf_id_view(l))
}

/// The view of an optional name.
pub open spec fn opt_name_view(o: Option<String>) -> Option<Seq<char>> {
    match o {
        Some(g) => Some(g@),
        None => None,
    }
}

/// The key node `i` yields as a leaf: its parent's name and its own.
pub open spec fn leaf_tag(tree: AssetTree, i: int) -> (Option<Seq<char>>, Seq<char>) {
    (
        match tree.nodes@[i].parent {
            Some(p) => Some(tree.nodes@[p as int].name@),
            None => None,
        },
        tree.nodes@[i].name@,
    )
}

/// The keys of all leaf descendants of node `i`, depth-first in child order.
/// Descent stops after `fuel` levels; one level per arena node covers every
/// acyclic path, so a built tree is never truncated.
pub open spec fn leaf_ids_rec(tree: AssetTree, i: int, fuel: nat) -> Seq<
    (Option<Seq<char>>, Seq<char>),
>
    decreases fuel, 1int, 0int,
{
    if fuel == 0 {
        Seq::empty()
    } else if tree.nodes@[i].kind == NodeKind::Layer {
        seq![leaf_tag(tree, i)]
    } else {
        leaf_ids_children(tree, i, tree.children_of(i).len() as int, fuel)
    }
}

/// The keys contributed by the first `k` children of group `i`.
pub open spec fn leaf_ids_children(tree: AssetTree, i: int, k: int, fuel: nat) -> Seq<
    (Option<Seq<char>>, Seq<char>),
>
    decreases fuel, 0int, k,
{
    if fuel == 0 || k <= 0 {
        Seq::empty()
    } else {
        leaf_ids_children(tree, i, k - 1, fuel) + leaf_ids_rec(
            tree,
            tree.children_of(i)[k - 1] as int,
            (fuel - 1) as nat,
        )
    }
}

/// The keys of a whole selection: every member's leaf descendants, in member
/// order.
pub open spec fn selection_leaf_ids(tree: AssetTree, members: Seq<usize>, fuel: nat) -> Seq<
    (Option<Seq<char>>, Seq<char>),
>
    decreases members.len(),
{
    if members.len() == 0 {
        Seq::empty()
    } else {
        selection_leaf_ids(tree, members.drop_last(), fuel) + leaf_ids_rec(
            tree,
            members.last() as int,
            fuel,
        )
    }
}

/// Whether one resolved key answers for the queried names: equal leaf name
/// and equal optional enclosing-group name.
pub open spec fn id_matches(
    entry: (Option<Seq<char>>, Seq<char>),
    group: Option<Seq<char>>,
    name: Seq<char>,
) -> bool {
    entry.1 == name && match (entry.0, group) {
        (Some(a), Some(b)) => a == b,
        (None, None) => true,
        _ => false,
    }
}

/// The membership predicate over a key list: whether some entry matches.
pub open spec fn spec_is_member(
    entries: Seq<(Option<Seq<char>>, Seq<char>)>,
    group: Option<Seq<char>>,
    name: Seq<char>,
) -> bool {
    exists|k: int| 0 <= k < entries.len() && id_matches(#[trigger] entries[k], group, name)
}

/// Collects the keys of all leaf descendants of node `i` onto `out`.
fn collect_leaf_ids_rec(tree: &AssetTree, i: usize, out: &mut Vec<LeafIdentifier>, fuel: usize)
    requires
        tree.wf(),
        i < tree.len(),
    ensures
        ids_view(final(out)@) == ids_view(old(out)@) + leaf_ids_rec(*tree, i as int, fuel as nat),
    decreases fuel,
{
    if fuel == 0 {
        proof {
            assert(ids_view(out@) =~= ids_view(out@) + leaf_ids_rec(*tree, i as int, 0));
        }
        return ;
    }
    match tree.nodes[i].kind {
        NodeKind::Layer => {
            let group: Option<String> = match tree.nodes[i].parent {
                Some(p) => Some(tree.nodes[p].name.clone()),
                None => None,
            };
            let name = tree.nodes[i].name.clone();
            out.push(LeafIdentifier { group, name });
            proof {
                assert(ids_view(out@) =~= ids_view(old(out)@) + leaf_ids_rec(
                    *tree,
                    i as int,
                    fuel as nat,
                ));
            }
        },
        NodeKind::Group => {
            let child_count = tree.nodes[i].children.len();
            let mut k: usize = 0;
            proof {
                assert(ids_view(out@) =~= ids_view(old(out)@) + leaf_ids_children(
                    *tree,
                    i as int,
                    0,
                    fuel as nat,
                ));
            }
            while k < child_count
                invariant
                    k <= child_count,
                    tree.wf(),
                    i < tree.len(),
                    fuel >= 1,
                    child_count == tree.children_of(i as int).len(),
                    ids_view(out@) == ids_view(old(out)@) + leaf_ids_children(
                        *tree,
                        i as int,
                        k as int,
                        fuel as nat,
                    ),
                decreases child_count - k,
            {
                let child = tree.nodes[i].children[k];
                collect_leaf_ids_rec(tree, child, out, fuel - 1);
                k = k + 1;
            }
            proof {
                assert(leaf_ids_rec(*tree, i as int, fuel as nat) == leaf_ids_children(
                    *tree,
                    i as int,
                    child_count as int,
                    fuel as nat,
                ));
            }
        },
    }
}

/// Reduces a selection to its leaf keys: the membership set the external
/// compositor consults, one entry per leaf descendant of a selected node, in
/// selection order.
pub fn to_membership_predicate(tree: &AssetTree, sel: &Selection) -> (ids: Vec<LeafIdentifier>)
    requires
        tree.wf(),
        sel.wf(*tree),
    ensures
        ids_view(ids@) == selection_leaf_ids(*tree, sel.members@, tree.nodes@.len() as nat),
{
    let mut ids: Vec<LeafIdentifier> = Vec::new();
    let fuel = tree.nodes.len();
    let mut c: usize = 0;
    while c < sel.members.len()
        invariant
            c <= sel.members@.len(),
            tree.wf(),
            sel.wf(*tree),
            fuel == tree.nodes@.len(),
            ids_view(ids@) == selection_leaf_ids(
                *tree,
                sel.members@.take(c as int),
                fuel as nat,
            ),
        decreases sel.members@.len() - c,
    {
        let m = sel.members[c];
        collect_leaf_ids_rec(tree, m, &mut ids, fuel);
        proof {
            assert(sel.members@.take(c + 1).drop_last() =~= sel.members@.take(c as int));
            assert(sel.members@.take(c + 1).last() == sel.members@[c as int]);
        }
        c = c + 1;
    }
    proof {
        assert(sel.members@.take(sel.members@.len() as int) =~= sel.members@);
    }
    ids
}

/// Tests a leaf descriptor against the resolved keys: true exactly when
/// some resolved key carries an equal leaf name and an equal optional
/// enclosing-group name.
pub fn is_member(ids: &Vec<LeafIdentifier>, group: &Option<String>, name: &String) -> (r: bool)
    ensures
        r == spec_is_member(ids_view(ids@), opt_name_view(*group), name@),
{
    let mut k: usize = 0;
    while k < ids.len()
        invariant
            k <= ids@.len(),
            forall|j: int|
                0 <= j < k ==> !id_matches(
                    ids_view(ids@)[j],
                    opt_name_view(*group),
                    name@,
                ),
        decreases ids@.len() - k,
    {
        let entry = &ids[k];
        let name_same = name_eq(&entry.name, name);
        let group_same: bool = match (&entry.group, group) {
            (Some(a), Some(b)) => name_eq(a, b),
            (None, None) => true,
            _ => false,
        };
        if name_same && group_same {
            assert(id_matches(ids_view(ids@)[k as int], opt_name_view(*group), name@));
            return true;
        }
        k = k + 1;
    }
    false
}

/// Determinism of the membership predicate: two key lists resolved from the
/// same selection answer every query alike.
pub proof fn lemma_membership_deterministic(
    tree: AssetTree,
    members: Seq<usize>,
    fuel: nat,
    ids1: Seq<LeafIdentifier>,
    ids2: Seq<LeafIdentifier>,
)
    requires
        ids_view(ids1) == selection_leaf_ids(tree, members, fuel),
        ids_view(ids2) == selection_leaf_ids(tree, members, fuel),
    ensures
        forall|group: Option<Seq<char>>, name: Seq<char>|
            spec_is_member(ids_view(ids1), group, name) == spec_is_member(
                ids_view(ids2),
                group,
                name,
            ),
{
}

} // verus!
