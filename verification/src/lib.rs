pub mod codec;
pub mod leaves;
pub mod overlay;
pub mod select;
pub mod transport;
pub mod tree;
pub mod variants;

use vstd::prelude::*;

verus! {

/// Errors surfaced by tree construction and token resolution.
#[derive(Debug, Clone, PartialEq, Eq, Structural)]
pub enum AssetError {
    /// A record referenced a parent id that no group record carries.
    MalformedTree { parent_id: u32 },
    /// A visibility value exceeded the addressed slot's child count.
    VisibilityOutOfRange { slot: usize, value: u8, limit: usize },
}

/// Resolves one variant end to end: the visibility sequence picks nodes per
/// slot, the overlay step pulls in name-matched background nodes, and the
/// result is reduced to the leaf membership keys the compositor consults.
///
/// Fails exactly as `resolve` does, on the first out-of-range slot value.
pub fn resolve_variant(tree: &tree::AssetTree, vis: &[u8]) -> (r: Result<
    Vec<leaves::LeafIdentifier>,
    AssetError,
>)
    requires
        tree.wf(),
    ensures
        match r {
            Ok(ids) => {
                &&& forall|s: int|
                    0 <= s < tree.roots@.len() ==> select::slot_ok(
                        *tree,
                        s,
                        select::slot_value(vis@, s),
                    )
                &&& exists|ext: Seq<usize>|
                    {
                        &&& ext.take(select::resolved_selection(*tree, vis@).len() as int)
                            == select::resolved_selection(*tree, vis@)
                        &&& overlay::members_set(ext) == overlay::extended_set(
                            *tree,
                            overlay::members_set(select::resolved_selection(*tree, vis@)),
                        )
                        &&& leaves::ids_view(ids@) == leaves::selection_leaf_ids(
                            *tree,
                            ext,
                            tree.nodes@.len() as nat,
                        )
                    }
            },
            Err(e) => {
                &&& select::first_bad_slot_from(*tree, vis@, 0) is Some
                &&& e == select::slot_error(
                    *tree,
                    vis@,
                    select::first_bad_slot_from(*tree, vis@, 0)->Some_0,
                )
            },
        },
{
    let sel = match select::resolve(tree, vis) {
        Ok(sel) => sel,
        Err(e) => {
            return Err(e);
        },
    };
    let extended = overlay::extend_with_overlays(tree, &sel);
    let ids = leaves::to_membership_predicate(tree, &extended);
    proof {
        let ext = extended.members@;
        assert(ext.take(select::resolved_selection(*tree, vis@).len() as int)
            == select::resolved_selection(*tree, vis@));
    }
    Ok(ids)
}

} // verus!
