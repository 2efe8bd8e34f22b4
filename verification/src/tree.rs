//! Asset tree: an ordered hierarchy of named group and layer nodes, built
//! from flat collections of parent-referencing records.
//!
//! Nodes live in an arena (`nodes`) and address one another by stable index;
//! children lists and the top-level list hold indices in declaration order,
//! group records before layer records. A parent reference is a plain index
//! with no ownership implication.
use vstd::prelude::*;

verus! {

use crate::AssetError;
use std::collections::HashMap;

/// Whether a node is an inner group or a leaf layer; fixed at construction.
#[derive(Debug, Clone, Copy, PartialEq, Eq, Structural)]
pub enum NodeKind {
    Group,
    Layer,
}

/// A flat group record: an upstream id, a display name, and an optional
/// parent group id.
#[derive(Debug, Clone)]
pub struct GroupRecord {
    pub id: u32,
    pub name: String,
    pub parent_id: Option<u32>,
}

/// A flat layer record: a display name and an optional parent group id.
#[derive(Debug, Clone)]
pub struct LayerRecord {
    pub name: String,
    pub parent_id: Option<u32>,
}

/// One node of the built tree. `id` carries the upstream group id and is
/// absent for layers, whose records bear no id.
#[derive(Debug, Clone)]
pub struct AssetNode {
    pub kind: NodeKind,
    pub name: String,
    pub id: Option<u32>,
    pub parent: Option<usize>,
    pub children: Vec<usize>,
}

/// The built tree: the node arena plus the ordered list of top-level nodes
/// (the children of the synthetic root).
#[derive(Debug, Clone)]
pub struct AssetTree {
    pub nodes: Vec<AssetNode>,
    pub roots: Vec<usize>,
}

/// The id-to-index lookup the builder constructs: the first group record
/// carrying each id wins, so every id maps to exactly one node.
pub open spec fn id_map(groups: Seq<GroupRecord>) -> Map<u32, usize>
    decreases groups.len(),
{
    if groups.len() == 0 {
        Map::empty()
    } else {
        let m = id_map(groups.drop_last());
        let g = groups.last();
        if m.contains_key(g.id) {
            m
        } else {
            m.insert(g.id, (groups.len() - 1) as usize)
        }
    }
}

/// Every index the lookup maps to names a group record with that id.
pub proof fn lemma_id_map_values(groups: Seq<GroupRecord>)
    requires
        groups.len() <= usize::MAX,
    ensures
        forall|id: u32| #[trigger] id_map(groups).contains_key(id) ==> {
            let i = id_map(groups)[id];
            i < groups.len() && groups[i as int].id == id
        },
    decreases groups.len(),
{
    if groups.len() > 0 {
        lemma_id_map_values(groups.drop_last());
        let m = id_map(groups.drop_last());
        let g = groups.last();
        assert forall|id: u32| #[trigger] id_map(groups).contains_key(id) implies {
            let i = id_map(groups)[id];
            i < groups.len() && groups[i as int].id == id
        } by {
            assert(id_map(groups) == if m.contains_key(g.id) {
                m
            } else {
                m.insert(g.id, (groups.len() - 1) as usize)
            });
            if m.contains_key(id) {
                assert(groups.drop_last()[id_map(groups.drop_last())[id] as int] == groups[id_map(
                    groups.drop_last(),
                )[id] as int]);
            }
        }
    }
}

/// Total number of nodes the records give rise to.
pub open spec fn record_count(groups: Seq<GroupRecord>, layers: Seq<LayerRecord>) -> int {
    groups.len() + layers.len() as int
}

/// The parent id carried by record `i` in node order (groups, then layers).
pub open spec fn record_parent_id(
    groups: Seq<GroupRecord>,
    layers: Seq<LayerRecord>,
    i: int,
) -> Option<u32> {
    if i < groups.len() {
        groups[i].parent_id
    } else {
        layers[i - groups.len()].parent_id
    }
}

/// The display name carried by record `i` in node order.
pub open spec fn record_name(
    groups: Seq<GroupRecord>,
    layers: Seq<LayerRecord>,
    i: int,
) -> Seq<char> {
    if i < groups.len() {
        groups[i].name@
    } else {
        layers[i - groups.len()].name@
    }
}

/// Whether record `i` references a parent id no group record carries.
pub open spec fn dangling_at(groups: Seq<GroupRecord>, layers: Seq<LayerRecord>, i: int) -> bool {
    match record_parent_id(groups, layers, i) {
        Some(pid) => !id_map(groups).contains_key(pid),
        None => false,
    }
}

/// Whether any record references a parent id no group record carries.
pub open spec fn has_dangling(groups: Seq<GroupRecord>, layers: Seq<LayerRecord>) -> bool {
    exists|i: int|
        0 <= i < record_count(groups, layers) && #[trigger] dangling_at(groups, layers, i)
}

/// The first dangling parent id at or after record `i`, in node order.
pub open spec fn first_dangling_from(
    groups: Seq<GroupRecord>,
    layers: Seq<LayerRecord>,
    i: int,
) -> Option<u32>
    decreases record_count(groups, layers) - i,
{
    if i < 0 || i >= record_count(groups, layers) {
        None
    } else if dangling_at(groups, layers, i) {
        record_parent_id(groups, layers, i)
    } else {
        first_dangling_from(groups, layers, i + 1)
    }
}

/// If nothing before `i` dangles and record `i` dangles, then record `i`'s
/// parent id is the first dangling one.
pub proof fn lemma_first_dangling_here(
    groups: Seq<GroupRecord>,
    layers: Seq<LayerRecord>,
    k: int,
    i: int,
)
    requires
        0 <= k <= i < record_count(groups, layers),
        forall|j: int| 0 <= j < i ==> !dangling_at(groups, layers, j),
        dangling_at(groups, layers, i),
    ensures
        first_dangling_from(groups, layers, k) == record_parent_id(groups, layers, i),
    decreases i - k,
{
    if k < i {
        lemma_first_dangling_here(groups, layers, k + 1, i);
    }
}

/// The parent index of record `i`: the node its parent id resolves to, absent
/// for a top-level record. Meaningful only when no reference dangles.
pub open spec fn parent_index_of(
    groups: Seq<GroupRecord>,
    layers: Seq<LayerRecord>,
    i: int,
) -> Option<usize> {
    match record_parent_id(groups, layers, i) {
        None => None,
        Some(pid) => if id_map(groups).contains_key(pid) {
            Some(id_map(groups)[pid])
        } else {
            None
        },
    }
}

/// The children of node `p` among the first `n` records: every node whose
/// parent resolves to `p`, in node order.
pub open spec fn children_upto(
    groups: Seq<GroupRecord>,
    layers: Seq<LayerRecord>,
    p: usize,
    n: int,
) -> Seq<usize>
    decreases n,
{
    if n <= 0 {
        Seq::empty()
    } else {
        let pre = children_upto(groups, layers, p, n - 1);
        if parent_index_of(groups, layers, n - 1) == Some(p) {
            pre.push((n - 1) as usize)
        } else {
            pre
        }
    }
}

/// The top-level nodes among the first `n` records: every node with no
/// parent reference, in node order.
pub open spec fn roots_upto(groups: Seq<GroupRecord>, layers: Seq<LayerRecord>, n: int) -> Seq<
    usize,
>
    decreases n,
{
    if n <= 0 {
        Seq::empty()
    } else {
        let pre = roots_upto(groups, layers, n - 1);
        if parent_index_of(groups, layers, n - 1) is None {
            pre.push((n - 1) as usize)
        } else {
            pre
        }
    }
}

/// What `children_upto` holds: exactly the records below `n` whose parent
/// resolves to `p`, in strictly increasing order.
pub proof fn lemma_children_upto_props(
    groups: Seq<GroupRecord>,
    layers: Seq<LayerRecord>,
    p: usize,
    n: int,
)
    requires
        n <= usize::MAX,
    ensures
        forall|k: int|
            0 <= k < children_upto(groups, layers, p, n).len() ==> (#[trigger] children_upto(
                groups,
                layers,
                p,
                n,
            )[k]) < n && parent_index_of(
                groups,
                layers,
                children_upto(groups, layers, p, n)[k] as int,
            ) == Some(p),
        forall|k1: int, k2: int|
            0 <= k1 < k2 < children_upto(groups, layers, p, n).len() ==> children_upto(
                groups,
                layers,
                p,
                n,
            )[k1] < children_upto(groups, layers, p, n)[k2],
        forall|c: int|
            0 <= c < n && parent_index_of(groups, layers, c) == Some(p) ==> children_upto(
                groups,
                layers,
                p,
                n,
            ).contains(c as usize),
    decreases n,
{
    if n > 0 {
        lemma_children_upto_props(groups, layers, p, n - 1);
        let pre = children_upto(groups, layers, p, n - 1);
        let cur = children_upto(groups, layers, p, n);
        assert forall|k: int| 0 <= k < cur.len() implies (#[trigger] cur[k]) < n
            && parent_index_of(groups, layers, cur[k] as int) == Some(p) by {
            if k < pre.len() {
                assert(cur[k] == pre[k]);
            }
        }
        assert forall|k1: int, k2: int| 0 <= k1 < k2 < cur.len() implies cur[k1] < cur[k2] by {
            if k2 < pre.len() {
                assert(cur[k1] == pre[k1] && cur[k2] == pre[k2]);
            } else if k2 == pre.len() && cur.len() > pre.len() {
                assert(cur[k1] == pre[k1] && pre[k1] < n - 1);
            }
        }
        assert forall|c: int|
            0 <= c < n && parent_index_of(groups, layers, c) == Some(p) implies cur.contains(
            c as usize,
        ) by {
            if c < n - 1 {
                assert(pre.contains(c as usize));
                let k = choose|k: int| 0 <= k < pre.len() && pre[k] == c as usize;
                assert(cur[k] == c as usize);
            } else {
                assert(cur.last() == c as usize);
            }
        }
    }
}

/// What `roots_upto` holds: exactly the records below `n` with no parent, in
/// strictly increasing order.
pub proof fn lemma_roots_upto_props(groups: Seq<GroupRecord>, layers: Seq<LayerRecord>, n: int)
    requires
        n <= usize::MAX,
    ensures
        forall|k: int|
            0 <= k < roots_upto(groups, layers, n).len() ==> (#[trigger] roots_upto(
                groups,
                layers,
                n,
            )[k]) < n && parent_index_of(
                groups,
                layers,
                roots_upto(groups, layers, n)[k] as int,
            ) is None,
        forall|k1: int, k2: int|
            0 <= k1 < k2 < roots_upto(groups, layers, n).len() ==> roots_upto(groups, layers, n)[k1]
                < roots_upto(groups, layers, n)[k2],
        forall|c: int|
            0 <= c < n && parent_index_of(groups, layers, c) is None ==> roots_upto(
                groups,
                layers,
                n,
            ).contains(c as usize),
    decreases n,
{
    if n > 0 {
        lemma_roots_upto_props(groups, layers, n - 1);
        let pre = roots_upto(groups, layers, n - 1);
        let cur = roots_upto(groups, layers, n);
        assert forall|k: int| 0 <= k < cur.len() implies (#[trigger] cur[k]) < n
            && parent_index_of(groups, layers, cur[k] as int) is None by {
            if k < pre.len() {
                assert(cur[k] == pre[k]);
            }
        }
        assert forall|k1: int, k2: int| 0 <= k1 < k2 < cur.len() implies cur[k1] < cur[k2] by {
            if k2 < pre.len() {
                assert(cur[k1] == pre[k1] && cur[k2] == pre[k2]);
            } else if k2 == pre.len() && cur.len() > pre.len() {
                assert(cur[k1] == pre[k1] && pre[k1] < n - 1);
            }
        }
        assert forall|c: int|
            0 <= c < n && parent_index_of(groups, layers, c) is None implies cur.contains(
            c as usize,
        ) by {
            if c < n - 1 {
                assert(pre.contains(c as usize));
                let k = choose|k: int| 0 <= k < pre.len() && pre[k] == c as usize;
                assert(cur[k] == c as usize);
            } else {
                assert(cur.last() == c as usize);
            }
        }
    }
}

/// Node `i` carries record `i`'s kind, name, id and resolved parent, for
/// every node the sequence holds.
pub open spec fn contents_model(
    nodes: Seq<AssetNode>,
    groups: Seq<GroupRecord>,
    layers: Seq<LayerRecord>,
) -> bool {
    forall|i: int|
        0 <= i < nodes.len() ==> {
            let n = #[trigger] nodes[i];
            &&& n.kind == (if i < groups.len() {
                NodeKind::Group
            } else {
                NodeKind::Layer
            })
            &&& n.name@ == record_name(groups, layers, i)
            &&& n.id == (if i < groups.len() {
                Some(groups[i].id)
            } else {
                None::<u32>
            })
            &&& n.parent == parent_index_of(groups, layers, i)
        }
}

impl AssetTree {
    /// Number of nodes in the arena.
    pub open spec fn len(self) -> int {
        self.nodes@.len() as int
    }

    /// The children list of node `i`.
    pub open spec fn children_of(self, i: int) -> Seq<usize> {
        self.nodes@[i].children@
    }

    /// Structural well-formedness: indices in range, parent pointers and
    /// children lists mutually consistent, lists strictly increasing, and
    /// layers childless.
    pub open spec fn wf(self) -> bool {
        &&& forall|k: int|
            0 <= k < self.roots@.len() ==> (#[trigger] self.roots@[k]) < self.len()
        &&& forall|i: int, k: int|
            0 <= i < self.len() && 0 <= k < self.children_of(i).len() ==> (
            #[trigger] self.children_of(i)[k]) < self.len()
        &&& forall|i: int, k: int|
            0 <= i < self.len() && 0 <= k < self.children_of(i).len()
                ==> self.nodes@[#[trigger] self.children_of(i)[k] as int].parent == Some(
                i as usize,
            )
        &&& forall|k: int|
            0 <= k < self.roots@.len() ==> self.nodes@[#[trigger] self.roots@[k] as int].parent
                is None
        &&& forall|i: int, k1: int, k2: int|
            0 <= i < self.len() && 0 <= k1 < k2 < self.children_of(i).len() ==> (
            #[trigger] self.children_of(i)[k1]) < (#[trigger] self.children_of(i)[k2])
        &&& forall|k1: int, k2: int|
            0 <= k1 < k2 < self.roots@.len() ==> (#[trigger] self.roots@[k1]) < (
            #[trigger] self.roots@[k2])
        &&& forall|i: int|
            0 <= i < self.len() && self.nodes@[i].kind == NodeKind::Layer ==> self.children_of(
                i,
            ).len() == 0
        &&& forall|i: int|
            0 <= i < self.len() && (#[trigger] self.nodes@[i].parent) is Some
                ==> (self.nodes@[i].parent->Some_0 as int) < self.len()
    }

    /// The models relation: this tree is exactly the one the given records
    /// describe, node `i` carrying record `i`'s content (groups before
    /// layers) and every list holding what the parent references dictate.
    pub open spec fn models(self, groups: Seq<GroupRecord>, layers: Seq<LayerRecord>) -> bool {
        &&& self.len() == record_count(groups, layers)
        &&& contents_model(self.nodes@, groups, layers)
        &&& forall|p: int|
            0 <= p < self.len() ==> #[trigger] self.children_of(p) == children_upto(
                groups,
                layers,
                p as usize,
                record_count(groups, layers),
            )
        &&& self.roots@ == roots_upto(groups, layers, record_count(groups, layers))
    }
}

/// A tree that models its records is well-formed.
pub proof fn lemma_models_implies_wf(
    t: AssetTree,
    groups: Seq<GroupRecord>,
    layers: Seq<LayerRecord>,
)
    requires
        t.models(groups, layers),
        record_count(groups, layers) <= usize::MAX,
    ensures
        t.wf(),
{
    let n = record_count(groups, layers);
    lemma_id_map_values(groups);
    lemma_roots_upto_props(groups, layers, n);
    assert forall|i: int, k: int|
        0 <= i < t.len() && 0 <= k < t.children_of(i).len() implies (#[trigger] t.children_of(i)[k])
        < t.len() && t.nodes@[t.children_of(i)[k] as int].parent == Some(i as usize) by {
        lemma_children_upto_props(groups, layers, i as usize, n);
        let cs = children_upto(groups, layers, i as usize, n);
        assert(t.children_of(i) == cs);
        assert((cs[k]) < n && parent_index_of(groups, layers, cs[k] as int) == Some(i as usize));
        assert(t.nodes@[cs[k] as int].parent == parent_index_of(groups, layers, cs[k] as int));
    }
    assert forall|i: int, k1: int, k2: int|
        0 <= i < t.len() && 0 <= k1 < k2 < t.children_of(i).len() implies (#[trigger] t.children_of(
        i,
    )[k1]) < (#[trigger] t.children_of(i)[k2]) by {
        lemma_children_upto_props(groups, layers, i as usize, n);
        let cs = children_upto(groups, layers, i as usize, n);
        assert(t.children_of(i) == cs);
        assert(cs[k1] < cs[k2]);
    }
    assert forall|k: int| 0 <= k < t.roots@.len() implies (#[trigger] t.roots@[k]) < t.len()
        && t.nodes@[t.roots@[k] as int].parent is None by {
        let rs = roots_upto(groups, layers, n);
        assert(rs[k] < n && parent_index_of(groups, layers, rs[k] as int) is None);
        assert(t.nodes@[rs[k] as int].parent == parent_index_of(groups, layers, rs[k] as int));
    }
    assert forall|i: int|
        0 <= i < t.len() && t.nodes@[i].kind == NodeKind::Layer implies t.children_of(i).len()
        == 0 by {
        lemma_children_upto_props(groups, layers, i as usize, n);
        let cs = children_upto(groups, layers, i as usize, n);
        assert(t.children_of(i) == cs);
        if cs.len() > 0 {
            let c = cs[0];
            assert(c < n && parent_index_of(groups, layers, c as int) == Some(i as usize));
            assert(i >= groups.len());
            let pid = record_parent_id(groups, layers, c as int)->Some_0;
            assert(id_map(groups).contains_key(pid) && id_map(groups)[pid] == i as usize);
            assert(false);
        }
    }
    assert forall|i: int|
        0 <= i < t.len() && (#[trigger] t.nodes@[i].parent) is Some implies (t.nodes@[i]
        .parent->Some_0 as int) < t.len() by {
        let pid = record_parent_id(groups, layers, i)->Some_0;
        assert(t.nodes@[i].parent == parent_index_of(groups, layers, i));
        assert(id_map(groups).contains_key(pid) && id_map(groups)[pid] == t.nodes@[i]
            .parent->Some_0);
    }
}

/// String equality by view.
pub fn name_eq(a: &String, b: &String) -> (r: bool)
    ensures
        r == (a@ == b@),
{
    a.eq(b)
}

/// Builds one tree from flat group and layer records.
///
/// Groups come first in node order, then layers, each keeping its record's
/// position; a record with no parent id becomes a top-level node, and every
/// other record becomes a child of the group its parent id resolves to
/// (the first group record carrying that id). Children of each parent keep
/// the records' relative order, group children before layer children.
///
/// Fails with `MalformedTree` naming the first parent id (in node order)
/// that no group record carries.
pub fn build_tree(groups: &Vec<GroupRecord>, layers: &Vec<LayerRecord>) -> (r: Result<
    AssetTree,
    AssetError,
>)
    requires
        groups@.len() + layers@.len() <= usize::MAX,
    ensures
        match r {
            Ok(t) => !has_dangling(groups@, layers@) && t.models(groups@, layers@) && t.wf(),
            Err(e) => has_dangling(groups@, layers@) && first_dangling_from(groups@, layers@, 0)
                is Some && e == (AssetError::MalformedTree {
                parent_id: first_dangling_from(groups@, layers@, 0)->Some_0,
            }),
        },
{
    let g_len = groups.len();
    let l_len = layers.len();
    let total = g_len + l_len;

    // first pass: id-to-index lookup, first occurrence of each id winning
    let mut lookup: HashMap<u32, usize> = HashMap::new();
    let mut i: usize = 0;
    while i < g_len
        invariant
            i <= g_len,
            g_len == groups@.len(),
            lookup@ == id_map(groups@.take(i as int)),
        decreases g_len - i,
    {
        let id = groups[i].id;
        if !lookup.contains_key(&id) {
            lookup.insert(id, i);
        }
        proof {
            assert(groups@.take(i + 1).drop_last() =~= groups@.take(i as int));
            assert(groups@.take(i + 1).last() == groups@[i as int]);
        }
        i = i + 1;
    }
    proof {
        assert(groups@.take(g_len as int) =~= groups@);
        lemma_id_map_values(groups@);
    }

    // second pass: one node per record, resolving each parent reference
    let mut nodes: Vec<AssetNode> = Vec::new();
    let mut i: usize = 0;
    while i < g_len
        invariant
            i <= g_len,
            g_len == groups@.len(),
            l_len == layers@.len(),
            lookup@ == id_map(groups@),
            nodes@.len() == i,
            contents_model(nodes@, groups@, layers@),
            forall|p: int| 0 <= p < i ==> nodes@[p].children@ == Seq::<usize>::empty(),
            forall|j: int| 0 <= j < i ==> !dangling_at(groups@, layers@, j),
        decreases g_len - i,
    {
        let rec = &groups[i];
        let parent: Option<usize> = match rec.parent_id {
            None => None,
            Some(pid) => match lookup.get(&pid) {
                Some(p) => Some(*p),
                None => {
                    proof {
                        assert(dangling_at(groups@, layers@, i as int));
                        lemma_first_dangling_here(groups@, layers@, 0, i as int);
                    }
                    return Err(AssetError::MalformedTree { parent_id: pid });
                },
            },
        };
        nodes.push(
            AssetNode {
                kind: NodeKind::Group,
                name: rec.name.clone(),
                id: Some(rec.id),
                parent,
                children: Vec::new(),
            },
        );
        i = i + 1;
    }
    let mut j: usize = 0;
    while j < l_len
        invariant
            j <= l_len,
            g_len == groups@.len(),
            l_len == layers@.len(),
            lookup@ == id_map(groups@),
            nodes@.len() == g_len + j,
            contents_model(nodes@, groups@, layers@),
            forall|p: int| 0 <= p < g_len + j ==> nodes@[p].children@ == Seq::<usize>::empty(),
            forall|jj: int| 0 <= jj < g_len + j ==> !dangling_at(groups@, layers@, jj),
        decreases l_len - j,
    {
        let rec = &layers[j];
        let parent: Option<usize> = match rec.parent_id {
            None => None,
            Some(pid) => match lookup.get(&pid) {
                Some(p) => Some(*p),
                None => {
                    proof {
                        assert(dangling_at(groups@, layers@, g_len + j));
                        lemma_first_dangling_here(groups@, layers@, 0, g_len + j);
                    }
                    return Err(AssetError::MalformedTree { parent_id: pid });
                },
            },
        };
        nodes.push(
            AssetNode {
                kind: NodeKind::Layer,
                name: rec.name.clone(),
                id: None,
                parent,
                children: Vec::new(),
            },
        );
        j = j + 1;
    }

    // third pass: attach every node to its parent's children list, or to the
    // top-level list, in node order
    let mut roots: Vec<usize> = Vec::new();
    let mut i: usize = 0;
    while i < total
        invariant
            i <= total,
            total == g_len + l_len,
            g_len == groups@.len(),
            l_len == layers@.len(),
            nodes@.len() == total,
            contents_model(nodes@, groups@, layers@),
            forall|jj: int| 0 <= jj < total ==> !dangling_at(groups@, layers@, jj),
            forall|p: int|
                0 <= p < total ==> (#[trigger] nodes@[p].children@) == children_upto(
                    groups@,
                    layers@,
                    p as usize,
                    i as int,
                ),
            roots@ == roots_upto(groups@, layers@, i as int),
        decreases total - i,
    {
        let p_opt = nodes[i].parent;
        match p_opt {
            Some(p) => {
                proof {
                    lemma_id_map_values(groups@);
                    assert(parent_index_of(groups@, layers@, i as int) == Some(p));
                    let pid = record_parent_id(groups@, layers@, i as int)->Some_0;
                    assert(id_map(groups@).contains_key(pid) && id_map(groups@)[pid] == p);
                }
                nodes[p].children.push(i);
            },
            None => {
                roots.push(i);
            },
        }
        i = i + 1;
    }
    let t = AssetTree { nodes, roots };
    proof {
        assert(t.models(groups@, layers@));
        lemma_models_implies_wf(t, groups@, layers@);
        if has_dangling(groups@, layers@) {
            let w = choose|w: int|
                0 <= w < record_count(groups@, layers@) && #[trigger] dangling_at(
                    groups@,
                    layers@,
                    w,
                );
            assert(false);
        }
    }
    Ok(t)
}

} // verus!
