//! Variant enumeration: the Cartesian product of every slot's valid value
//! range, and the hex tokens it gives rise to.
//!
//! Each top-level slot admits the values `0 ..= child_count`, so a tree
//! yields the product of `child_count + 1` over its slots as distinct
//! tokens. The all-select sentinel is not enumerated. Meant for exhaustive
//! variant generation and testing, not for normal resolution.
use vstd::prelude::*;

verus! {

use crate::codec::encode_hex_spec;
use crate::codec::encode_visibility_to_hex;
use crate::codec::lemma_decode_encode_round_trip;
use crate::select::slot_children;
use crate::tree::AssetTree;
use vstd::arithmetic::div_mod::lemma_fundamental_div_mod_converse;

/// The product of all limits: how many tuples the enumeration yields.
pub open spec fn product_of(limits: Seq<usize>) -> int
    decreases limits.len(),
{
    if limits.len() == 0 {
        1
    } else {
        product_of(limits.drop_last()) * limits.last()
    }
}

/// One enumeration step: every tuple extended with every value below the
/// limit, tuples in order, values in order within each tuple.
pub open spec fn extend_tuples(ts: Seq<Seq<usize>>, limit: usize) -> Seq<Seq<usize>> {
    Seq::new(
        (ts.len() * limit) as nat,
        |q: int| ts[q / (limit as int)].push((q % (limit as int)) as usize),
    )
}

/// All tuples with one value below each limit, in lexicographic order.
pub open spec fn tuples_of(limits: Seq<usize>) -> Seq<Seq<usize>>
    decreases limits.len(),
{
    if limits.len() == 0 {
        seq![Seq::<usize>::empty()]
    } else {
        extend_tuples(tuples_of(limits.drop_last()), limits.last())
    }
}

/// Enumeration size and shape: the tuples number exactly the product of the
/// limits, no tuple repeats, and every tuple holds one value below each
/// limit.
pub proof fn lemma_tuples_of_props(limits: Seq<usize>)
    ensures
        tuples_of(limits).len() == product_of(limits),
        product_of(limits) >= 0,
        forall|q1: int, q2: int|
            #![trigger tuples_of(limits)[q1], tuples_of(limits)[q2]]
            0 <= q1 < q2 < tuples_of(limits).len() ==> tuples_of(limits)[q1] != tuples_of(
                limits,
            )[q2],
        forall|q: int|
            0 <= q < tuples_of(limits).len() ==> (#[trigger] tuples_of(limits)[q]).len()
                == limits.len(),
        forall|q: int, j: int|
            0 <= q < tuples_of(limits).len() && 0 <= j < limits.len() ==> tuples_of(limits)[q][j]
                < limits[j],
    decreases limits.len(),
{
    if limits.len() == 0 {
    } else {
        let pre = limits.drop_last();
        lemma_tuples_of_props(pre);
        let ts = tuples_of(pre);
        let limit = limits.last() as int;
        let cur = tuples_of(limits);
        assert(cur.len() == ts.len() * limit) by (nonlinear_arith)
            requires
                cur.len() == tuples_of(pre).len() * (limits.last() as int),
                ts.len() == tuples_of(pre).len(),
                limit == limits.last() as int,
        ;
        assert(product_of(limits) == product_of(pre) * limit);
        assert forall|q: int| 0 <= q < cur.len() implies 0 <= q / limit < ts.len() && 0 <= q % limit
            < limit && (#[trigger] cur[q]) == ts[q / limit].push((q % limit) as usize) by {
            assert(limit > 0) by (nonlinear_arith)
                requires
                    ts.len() * limit > 0,
                    ts.len() >= 0,
                    limit >= 0,
            ;
            assert(q / limit < ts.len()) by (nonlinear_arith)
                requires
                    limit > 0,
                    0 <= q < ts.len() * limit,
            ;
        }
        assert forall|q1: int, q2: int| 0 <= q1 < q2 < cur.len() implies cur[q1] != cur[q2] by {
            let a1 = q1 / limit;
            let r1 = q1 % limit;
            let a2 = q2 / limit;
            let r2 = q2 % limit;
            if a1 == a2 && r1 == r2 {
                assert(q1 == a1 * limit + r1 && q2 == a2 * limit + r2) by (nonlinear_arith)
                    requires
                        limit > 0,
                        a1 == q1 / limit,
                        r1 == q1 % limit,
                        a2 == q2 / limit,
                        r2 == q2 % limit,
                ;
                assert(false);
            } else if a1 == a2 {
                assert(cur[q1].last() != cur[q2].last());
            } else {
                assert(limit > 0) by (nonlinear_arith)
                    requires
                        cur.len() == ts.len() * limit,
                        0 <= q2 < cur.len(),
                        limit >= 0,
                        ts.len() >= 0,
                ;
                vstd::arithmetic::div_mod::lemma_div_is_ordered(q1, q2, limit);
                assert(a1 < a2);
                assert(0 <= a1 && a2 < ts.len()) by (nonlinear_arith)
                    requires
                        limit > 0,
                        a1 == q1 / limit,
                        a2 == q2 / limit,
                        cur.len() == ts.len() * limit,
                        0 <= q1 < q2 < cur.len(),
                ;
                assert(ts[a1] != ts[a2]) by {
                    assert(tuples_of(pre)[a1] == ts[a1] && tuples_of(pre)[a2] == ts[a2]);
                }
                assert(cur[q1].drop_last() =~= ts[a1]);
                assert(cur[q2].drop_last() =~= ts[a2]);
            }
        }
        assert forall|q: int, j: int|
            0 <= q < cur.len() && 0 <= j < limits.len() implies cur[q][j] < limits[j] by {
            let a = q / limit;
            if j < limits.len() - 1 {
                assert(cur[q][j] == ts[a][j]);
                assert(pre[j] == limits[j]);
            } else {
                assert(cur[q][j] == (q % limit) as usize);
            }
        }
        assert(product_of(limits) >= 0) by (nonlinear_arith)
            requires
                product_of(limits) == product_of(pre) * limit,
                product_of(pre) >= 0,
                limit >= 0,
        ;
    }
}

/// Enumeration completeness: every tuple holding one value below each limit
/// is among the enumerated tuples.
pub proof fn lemma_tuples_of_complete(limits: Seq<usize>, t: Seq<usize>)
    requires
        t.len() == limits.len(),
        forall|j: int| 0 <= j < t.len() ==> t[j] < limits[j],
    ensures
        tuples_of(limits).contains(t),
    decreases limits.len(),
{
    if limits.len() == 0 {
        assert(t =~= Seq::<usize>::empty());
        assert(tuples_of(limits)[0] == t);
    } else {
        let pre = limits.drop_last();
        let tp = t.drop_last();
        lemma_tuples_of_complete(pre, tp);
        let ts = tuples_of(pre);
        let q0 = choose|q0: int| 0 <= q0 < ts.len() && ts[q0] == tp;
        let limit = limits.last() as int;
        let r = t.last() as int;
        let q = q0 * limit + r;
        assert(0 <= q < ts.len() * limit) by (nonlinear_arith)
            requires
                0 <= q0 < ts.len(),
                0 <= r < limit,
                q == q0 * limit + r,
        ;
        lemma_fundamental_div_mod_converse(q, limit, q0, r);
        assert(tuples_of(limits).len() == ts.len() * limit);
        assert(tuples_of(limits)[q] == ts[q0].push((q % limit) as usize));
        assert(ts[q0].push(t.last()) =~= t);
        assert(tuples_of(limits).contains(t)) by {
            assert(tuples_of(limits)[q] == t);
        }
    }
}

/// Copies a tuple.
fn copy_tuple(v: &Vec<usize>) -> (r: Vec<usize>)
    ensures
        r@ == v@,
{
    let mut r: Vec<usize> = Vec::new();
    let mut k: usize = 0;
    while k < v.len()
        invariant
            k <= v@.len(),
            r@ == v@.take(k as int),
        decreases v@.len() - k,
    {
        r.push(v[k]);
        proof {
            assert(v@.take(k + 1) =~= v@.take(k as int).push(v@[k as int]));
        }
        k = k + 1;
    }
    proof {
        assert(v@.take(v@.len() as int) =~= v@);
    }
    r
}

/// The views of a tuple list.
pub open spec fn tuples_view(s: Seq<Vec<usize>>) -> Seq<Seq<usize>> {
    s.map_values(|v: Vec<usize>| v@)
}

/// Generates the Cartesian product of `0 .. limit` over all limits, in
/// lexicographic order: every combination once, none twice.
pub fn cartesian_product_with_limits(limits: Vec<usize>) -> (r: Vec<Vec<usize>>)
    requires
        forall|k: int| 0 <= k <= limits@.len() ==> product_of(limits@.take(k)) <= usize::MAX,
    ensures
        tuples_view(r@) == tuples_of(limits@),
{
    let mut result: Vec<Vec<usize>> = Vec::new();
    result.push(Vec::new());
    proof {
        assert(limits@.take(0) =~= Seq::<usize>::empty());
        assert(tuples_view(result@) =~= tuples_of(limits@.take(0)));
    }
    let mut li: usize = 0;
    while li < limits.len()
        invariant
            li <= limits@.len(),
            forall|k: int| 0 <= k <= limits@.len() ==> product_of(limits@.take(k)) <= usize::MAX,
            tuples_view(result@) == tuples_of(limits@.take(li as int)),
            result@.len() == product_of(limits@.take(li as int)),
        decreases limits@.len() - li,
    {
        let limit = limits[li];
        proof {
            lemma_tuples_of_props(limits@.take(li as int));
            assert(limits@.take(li + 1).drop_last() =~= limits@.take(li as int));
            assert(limits@.take(li + 1).last() == limits@[li as int]);
            assert(product_of(limits@.take(li + 1)) == result@.len() * limit);
            assert(result@.len() * limit >= 0) by (nonlinear_arith)
                requires
                    result@.len() >= 0,
                    limit >= 0,
            ;
        }
        let mut temp: Vec<Vec<usize>> = Vec::new();
        let mut c: usize = 0;
        while c < result.len()
            invariant
                c <= result@.len(),
                limit == limits@[li as int],
                li < limits@.len(),
                result@.len() * limit <= usize::MAX,
                temp@.len() == c * limit,
                forall|q: int|
                    0 <= q < temp@.len() ==> (#[trigger] temp@[q])@ == result@[q / (
                    limit as int)]@.push((q % (limit as int)) as usize),
            decreases result@.len() - c,
        {
            proof {
                assert((c + 1) * limit <= result@.len() * limit && c * limit >= 0) by (
                nonlinear_arith)
                    requires
                        0 <= c < result@.len(),
                        limit >= 0,
                ;
            }
            let mut i: usize = 0;
            while i < limit
                invariant
                    i <= limit,
                    c < result@.len(),
                    limit == limits@[li as int],
                    (c + 1) * limit <= result@.len() * limit,
                    result@.len() * limit <= usize::MAX,
                    temp@.len() == c * limit + i,
                    forall|q: int|
                        0 <= q < temp@.len() ==> (#[trigger] temp@[q])@ == result@[q / (
                        limit as int)]@.push((q % (limit as int)) as usize),
                decreases limit - i,
            {
                let mut next = copy_tuple(&result[c]);
                next.push(i);
                temp.push(next);
                proof {
                    let q = c * limit + i;
                    lemma_fundamental_div_mod_converse(q as int, limit as int, c as int, i as int);
                    assert(temp@[q as int]@ == result@[c as int]@.push(i as usize));
                }
                i = i + 1;
            }
            proof {
                assert((c + 1) * limit == c * limit + limit) by (nonlinear_arith);
            }
            c = c + 1;
        }
        proof {
            let pre_l = limits@.take(li as int);
            let cur_l = limits@.take(li + 1);
            assert(tuples_of(cur_l) == extend_tuples(tuples_of(pre_l), limits@[li as int]));
            assert forall|q: int| 0 <= q < temp@.len() implies tuples_view(temp@)[q] == tuples_of(
                cur_l,
            )[q] by {
                assert(limit > 0) by (nonlinear_arith)
                    requires
                        0 <= q < result@.len() * limit,
                        result@.len() >= 0,
                        limit >= 0,
                ;
                assert(0 <= q / (limit as int) < result@.len()) by (nonlinear_arith)
                    requires
                        limit > 0,
                        0 <= q < result@.len() * limit,
                ;
                assert(tuples_view(temp@)[q] == temp@[q]@);
                assert(temp@[q]@ == result@[q / (limit as int)]@.push(
                    (q % (limit as int)) as usize,
                ));
                assert(tuples_view(result@)[q / (limit as int)] == result@[q / (limit as int)]@);
                assert(tuples_of(cur_l)[q] == tuples_of(pre_l)[q / (limit as int)].push(
                    (q % (limit as int)) as usize,
                ));
            }
            assert(tuples_view(temp@).len() == tuples_of(cur_l).len());
            assert(tuples_view(temp@) =~= tuples_of(cur_l));
        }
        result = temp;
        li = li + 1;
    }
    proof {
        assert(limits@.take(limits@.len() as int) =~= limits@);
    }
    result
}

/// One value per slot: each slot admits `child_count + 1` values.
pub open spec fn slot_limits(tree: AssetTree) -> Seq<usize> {
    Seq::new(tree.roots@.len(), |s: int| (slot_children(tree, s).len() + 1) as usize)
}

/// Enumerates every variant token of the tree: the Cartesian product of
/// `0 ..= child_count` over all top-level slots, encoded as hex tokens.
/// Yields exactly the product of `child_count + 1` over all slots, with no
/// token repeated; the all-select sentinel is not enumerated.
pub fn all_variant_tokens(tree: &AssetTree) -> (r: Vec<Vec<u8>>)
    requires
        tree.wf(),
        forall|s: int| 0 <= s < tree.roots@.len() ==> slot_children(*tree, s).len() < 255,
        forall|k: int| 0 <= k <= tree.roots@.len() ==> product_of(slot_limits(*tree).take(k))
            <= usize::MAX,
    ensures
        r@.len() == product_of(slot_limits(*tree)),
        forall|q: int|
            0 <= q < r@.len() ==> (#[trigger] r@[q])@ == encode_hex_spec(
                tuples_of(slot_limits(*tree))[q].map_values(|v: usize| v as u8),
            ),
        forall|q1: int, q2: int| 0 <= q1 < q2 < r@.len() ==> r@[q1]@ != r@[q2]@,
{
    let mut limits: Vec<usize> = Vec::new();
    let slot_count = tree.roots.len();
    let mut s: usize = 0;
    while s < slot_count
        invariant
            s <= slot_count,
            slot_count == tree.roots@.len(),
            tree.wf(),
            forall|j: int| 0 <= j < slot_count ==> slot_children(*tree, j).len() < 255,
            limits@ == slot_limits(*tree).take(s as int),
        decreases slot_count - s,
    {
        let ri = tree.roots[s];
        let cc = tree.nodes[ri].children.len();
        proof {
            assert(slot_children(*tree, s as int).len() < 255);
        }
        limits.push(cc + 1);
        proof {
            assert(slot_limits(*tree).take(s + 1) =~= slot_limits(*tree).take(s as int).push(
                slot_limits(*tree)[s as int],
            ));
        }
        s = s + 1;
    }
    proof {
        assert(slot_limits(*tree).take(slot_count as int) =~= slot_limits(*tree));
        lemma_tuples_of_props(slot_limits(*tree));
    }
    let tuples = cartesian_product_with_limits(limits);
    let mut r: Vec<Vec<u8>> = Vec::new();
    let mut q: usize = 0;
    let ghost lims = slot_limits(*tree);
    while q < tuples.len()
        invariant
            q <= tuples@.len(),
            tuples_view(tuples@) == tuples_of(lims),
            lims == slot_limits(*tree),
            forall|j: int| 0 <= j < lims.len() ==> lims[j] <= 255,
            r@.len() == q,
            forall|p: int|
                0 <= p < q ==> (#[trigger] r@[p])@ == encode_hex_spec(
                    tuples_of(lims)[p].map_values(|v: usize| v as u8),
                ),
        decreases tuples@.len() - q,
    {
        proof {
            lemma_tuples_of_props(lims);
        }
        let tuple = &tuples[q];
        let mut vis: Vec<u8> = Vec::new();
        let mut j: usize = 0;
        while j < tuple.len()
            invariant
                j <= tuple@.len(),
                q < tuples@.len(),
                tuples_view(tuples@) == tuples_of(lims),
                tuple@ == tuples_of(lims)[q as int],
                forall|p: int| 0 <= p < tuple@.len() ==> (#[trigger] tuple@[p]) < 256,
                vis@ == tuple@.map_values(|v: usize| v as u8).take(j as int),
            decreases tuple@.len() - j,
        {
            vis.push(tuple[j] as u8);
            proof {
                let m = tuple@.map_values(|v: usize| v as u8);
                assert(m.take(j + 1) =~= m.take(j as int).push(m[j as int]));
            }
            j = j + 1;
        }
        proof {
            let m = tuple@.map_values(|v: usize| v as u8);
            assert(m.take(m.len() as int) =~= m);
        }
        let token = encode_visibility_to_hex(vis.as_slice());
        r.push(token);
        q = q + 1;
    }
    proof {
        lemma_tuples_of_props(lims);
        assert forall|q1: int, q2: int| 0 <= q1 < q2 < r@.len() implies r@[q1]@ != r@[q2]@ by {
            let t1 = tuples_of(lims)[q1].map_values(|v: usize| v as u8);
            let t2 = tuples_of(lims)[q2].map_values(|v: usize| v as u8);
            lemma_decode_encode_round_trip(t1);
            lemma_decode_encode_round_trip(t2);
            if t1 =~= t2 {
                assert forall|j: int| 0 <= j < tuples_of(lims)[q1].len() implies tuples_of(
                    lims,
                )[q1][j] == tuples_of(lims)[q2][j] by {
                    assert(t1[j] == t2[j]);
                    assert(tuples_of(lims)[q1][j] < 256 && tuples_of(lims)[q2][j] < 256);
                }
                assert(tuples_of(lims)[q1] =~= tuples_of(lims)[q2]);
                assert(false);
            }
        }
    }
    r
}

} // verus!
