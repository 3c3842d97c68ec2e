//! Lemmas about the node arena behind the contracts of `tree`.
use vstd::prelude::*;
use crate::tree::{
    NONE,
    Node,
    agree_except,
    all_nonneg,
    attached_consistent,
    below,
    child_sum,
    children_sorted,
    counts_consistent,
    covered,
    detach_effect,
    detached_values,
    dirs_of,
    distinct,
    files_of,
    is_reordering,
    nodes_wf,
    own_part,
    parents_of,
    reaches,
    reorders_desc,
    same_but_children,
    same_but_parent,
    sizes_of,
    sorted_desc_stable,
    subtree_total,
};

verus! {

/// Summing subtree totals over the children of `j` is what `below` counts.
pub(crate) proof fn lemma_child_sum_of_totals(par: Seq<u32>, own: Seq<int>, tot: Seq<int>, j: int, from: int)
    requires
        tot.len() == par.len(),
        forall|i: int| #![trigger tot[i]] 0 <= i < par.len() ==> tot[i] == subtree_total(par, own, i),
    ensures
        child_sum(par, tot, j, from) == below(par, own, j, from),
    decreases par.len() - from,
{
    if from >= 0 && from < par.len() {
        lemma_child_sum_of_totals(par, own, tot, j, from + 1);
        assert(tot[from] == subtree_total(par, own, from));
    }
}

/// Totals over non-negative values are non-negative.
pub(crate) proof fn lemma_below_nonneg(par: Seq<u32>, own: Seq<int>, j: int, from: int)
    requires
        all_nonneg(own),
        own.len() == par.len(),
    ensures
        below(par, own, j, from) >= 0,
    decreases par.len() - from,
{
    if from >= 0 && from < par.len() {
        lemma_below_nonneg(par, own, from, from + 1);
        lemma_below_nonneg(par, own, j, from + 1);
    }
}

/// Summing over fewer nodes gives no more.
pub(crate) proof fn lemma_below_mono(par: Seq<u32>, own: Seq<int>, j: int, a: int, b: int)
    requires
        all_nonneg(own),
        own.len() == par.len(),
        0 <= a <= b,
    ensures
        below(par, own, j, b) <= below(par, own, j, a),
    decreases b - a,
{
    if a < b && a < par.len() {
        lemma_below_mono(par, own, j, a + 1, b);
        lemma_below_nonneg(par, own, a, a + 1);
    }
}

/// Two arenas with the same parents and child lists are equally well-formed.
pub(crate) proof fn lemma_same_shape_wf(a: Seq<Node>, b: Seq<Node>)
    requires
        nodes_wf(b),
        a.len() == b.len(),
        forall|j: int|
            #![trigger a[j]]
            0 <= j < a.len() ==> a[j].parent == b[j].parent && a[j].children == b[j].children,
    ensures
        nodes_wf(a),
{
    assert forall|p: int, k: int|
        0 <= p < a.len() && 0 <= k < a[p].children@.len() implies {
            &&& a[p].children@[k] < a.len()
            &&& a[a[p].children@[k] as int].parent == p
        } by {
        assert(a[p].children == b[p].children);
        assert(b[p].children@[k] < b.len());
        assert(a[b[p].children@[k] as int].parent == b[b[p].children@[k] as int].parent);
    }
    assert forall|p: int, k1: int, k2: int|
        0 <= p < a.len() && 0 <= k1 < k2 < a[p].children@.len() implies a[p].children@[k1]
            != a[p].children@[k2] by {
        assert(a[p].children == b[p].children);
        assert(b[p].children@[k1] != b[p].children@[k2]);
    }
    assert forall|c: int|
        0 <= c < a.len() && a[c].parent != NONE implies a[a[c].parent as int].children@.contains(
            c as u32,
        ) by {
        assert(a[c].parent == b[c].parent);
        assert(b[b[c].parent as int].children@.contains(c as u32));
        assert(a[b[c].parent as int].children == b[b[c].parent as int].children);
    }
    assert forall|i: int| 0 <= i < a.len() implies (a[i].parent == NONE || a[i].parent < i) by {
        assert(a[i].parent == b[i].parent);
    }
}

/// A node's place on the chain from `a` to the root comes no later than `a` itself.
pub(crate) proof fn lemma_reaches_le(nodes: Seq<Node>, a: int, b: int)
    requires
        reaches(nodes, a, b),
    ensures
        0 <= b <= a,
    decreases a,
{
    if a != b {
        lemma_reaches_le(nodes, nodes[a].parent as int, b);
    }
}

/// Two nodes on the chain above `x` are on one chain: one is an ancestor of the other.
pub(crate) proof fn lemma_reaches_chain(nodes: Seq<Node>, x: int, a: int, b: int)
    requires
        reaches(nodes, x, a),
        reaches(nodes, x, b),
    ensures
        reaches(nodes, a, b) || reaches(nodes, b, a),
    decreases x,
{
    if x != a && x != b {
        lemma_reaches_chain(nodes, nodes[x].parent as int, a, b);
    }
}

/// An ancestor of an ancestor is an ancestor.
pub(crate) proof fn lemma_reaches_trans(nodes: Seq<Node>, a: int, b: int, c: int)
    requires
        reaches(nodes, a, b),
        reaches(nodes, b, c),
    ensures
        reaches(nodes, a, c),
    decreases a,
{
    if a != b {
        lemma_reaches_trans(nodes, nodes[a].parent as int, b, c);
    }
}

/// Reordered lists stay sorted when no listed node changes size.
pub(crate) proof fn lemma_sorted_same_sizes(new: Seq<u32>, old: Seq<u32>, s1: Seq<int>, s2: Seq<int>)
    requires
        sorted_desc_stable(new, old, s1),
        forall|k: int| #![trigger new[k]] 0 <= k < new.len() ==> s1[new[k] as int] == s2[new[k] as int],
    ensures
        sorted_desc_stable(new, old, s2),
{
    let perm = choose|perm: Seq<int>| #[trigger] is_reordering(perm, old.len() as int) && reorders_desc(new, old, s1, perm);
    assert forall|i: int, j: int|
        #![trigger new[i], new[j]]
        0 <= i < j < new.len() implies s2[new[i] as int] > s2[new[j] as int] || (s2[new[i] as int]
            == s2[new[j] as int] && perm[i] < perm[j]) by {
        assert(s1[new[i] as int] == s2[new[i] as int]);
        assert(s1[new[j] as int] == s2[new[j] as int]);
    }
    assert(reorders_desc(new, old, s2, perm));
}

/// Taking `id` out of its parent's list and clearing its parent keeps the arena well-formed.
pub(crate) proof fn lemma_unlink_wf(nodes: Seq<Node>, id: int, pn: Node, idn: Node)
    requires
        nodes_wf(nodes),
        0 <= id < nodes.len(),
        nodes[id].parent != NONE,
        same_but_children(pn, nodes[nodes[id].parent as int]),
        forall|m: int|
            #![trigger pn.children@[m]]
            0 <= m < pn.children@.len() ==> pn.children@[m] != id as u32
                && nodes[nodes[id].parent as int].children@.contains(pn.children@[m]),
        forall|t: int|
            #![trigger nodes[nodes[id].parent as int].children@[t]]
            0 <= t < nodes[nodes[id].parent as int].children@.len()
                && nodes[nodes[id].parent as int].children@[t] != id as u32
                ==> pn.children@.contains(nodes[nodes[id].parent as int].children@[t]),
        distinct(pn.children@),
        same_but_parent(idn, nodes[id]),
        idn.parent == NONE,
    ensures
        nodes_wf(nodes.update(nodes[id].parent as int, pn).update(id, idn)),
{
    let p = nodes[id].parent as int;
    let new = nodes.update(p, pn).update(id, idn);
    assert(p < id);
    assert forall|q: int, k: int|
        0 <= q < new.len() && 0 <= k < new[q].children@.len() implies {
            &&& new[q].children@[k] < new.len()
            &&& new[new[q].children@[k] as int].parent == q
        } by {
        if q == p {
            let c = pn.children@[k];
            let t = choose|t: int| 0 <= t < nodes[p].children@.len() && nodes[p].children@[t] == c;
            assert(nodes[p].children@[t] == c);
            assert(nodes[c as int].parent == p);
        } else if q == id {
            assert(new[q].children@[k] == nodes[id].children@[k]);
            assert(nodes[id].children@[k] != p as u32) by {
                assert(nodes[nodes[id].children@[k] as int].parent == id);
            }
        } else {
            assert(new[q].children@[k] == nodes[q].children@[k]);
            let c = nodes[q].children@[k];
            assert(nodes[c as int].parent == q);
        }
    }
    assert forall|q: int, k1: int, k2: int|
        0 <= q < new.len() && 0 <= k1 < k2 < new[q].children@.len() implies new[q].children@[k1]
            != new[q].children@[k2] by {
        if q == p {
        } else {
            assert(new[q].children == nodes[q].children);
            assert(nodes[q].children@[k1] != nodes[q].children@[k2]);
        }
    }
    assert forall|c: int|
        0 <= c < new.len() && new[c].parent != NONE implies new[new[c].parent as int].children@.contains(
            c as u32,
        ) by {
        assert(c != id);
        assert(new[c].parent == nodes[c].parent);
        let q = nodes[c].parent as int;
        assert(nodes[q].children@.contains(c as u32));
        if q == p {
            let t = choose|t: int| 0 <= t < nodes[p].children@.len() && nodes[p].children@[t] == c as u32;
            assert(nodes[p].children@[t] == c as u32);
        } else if q == id {
            assert(new[q].children == nodes[id].children);
        } else {
            assert(new[q] == nodes[q]);
        }
    }
    assert forall|i: int| 0 <= i < new.len() implies (new[i].parent == NONE || new[i].parent < i) by {
        assert(nodes[i].parent == NONE || nodes[i].parent < i);
    }
}

/// A child's value counts toward its parent's child sum.
pub(crate) proof fn lemma_child_sum_ge(par: Seq<u32>, vals: Seq<int>, j: int, from: int, c: int)
    requires
        all_nonneg(vals),
        vals.len() == par.len(),
        0 <= from <= c < par.len(),
        par[c] as int == j,
    ensures
        child_sum(par, vals, j, from) >= vals[c],
    decreases c - from,
{
    if from < c {
        lemma_child_sum_ge(par, vals, j, from + 1, c);
        assert(vals[from] >= 0);
    } else {
        lemma_child_sum_nonneg(par, vals, j, from + 1);
    }
}

/// Child sums of non-negative values are non-negative.
pub(crate) proof fn lemma_child_sum_nonneg(par: Seq<u32>, vals: Seq<int>, j: int, from: int)
    requires
        all_nonneg(vals),
        vals.len() == par.len(),
    ensures
        child_sum(par, vals, j, from) >= 0,
    decreases par.len() - from,
{
    if from >= 0 && from < par.len() {
        lemma_child_sum_nonneg(par, vals, j, from + 1);
        assert(vals[from] >= 0);
    }
}

/// Where every node holds at least the sum over its children, an ancestor holds at
/// least as much as its descendant.
pub(crate) proof fn lemma_ancestor_ge(nodes: Seq<Node>, vals: Seq<int>, x: int, a: int)
    requires
        nodes_wf(nodes),
        all_nonneg(vals),
        vals.len() == nodes.len(),
        forall|j: int|
            #![trigger vals[j]]
            reaches(nodes, x, j) && j != x ==> vals[j] >= child_sum(parents_of(nodes), vals, j, j + 1),
        reaches(nodes, x, a),
    ensures
        vals[a] >= vals[x],
    decreases x,
{
    if x != a {
        let q = nodes[x].parent as int;
        assert(reaches(nodes, x, q)) by {
            assert(reaches(nodes, q, q));
        }
        assert forall|j: int| #![trigger vals[j]] reaches(nodes, q, j) && j != q implies vals[j]
            >= child_sum(parents_of(nodes), vals, j, j + 1) by {
            lemma_reaches_trans(nodes, x, q, j);
            lemma_reaches_le(nodes, q, j);
        }
        lemma_ancestor_ge(nodes, vals, q, a);
        assert(parents_of(nodes)[x] as int == q);
        lemma_child_sum_ge(parents_of(nodes), vals, q, q + 1, x);
        assert(vals[q] >= child_sum(parents_of(nodes), vals, q, q + 1));
    }
}

/// Two child sums over data that agree everywhere but at `k0` differ by the terms at `k0`.
pub(crate) proof fn lemma_child_sum_diff(
    par1: Seq<u32>,
    v1: Seq<int>,
    par2: Seq<u32>,
    v2: Seq<int>,
    j: int,
    from: int,
    k0: int,
)
    requires
        par1.len() == par2.len(),
        agree_except(par1, v1, par2, v2, j, from, k0),
    ensures
        child_sum(par1, v1, j, from) - child_sum(par2, v2, j, from) == if 0 <= from <= k0 < par1.len() {
            (if par1[k0] as int == j {
                v1[k0]
            } else {
                0
            }) - (if par2[k0] as int == j {
                v2[k0]
            } else {
                0
            })
        } else {
            0
        },
    decreases par1.len() - from,
{
    if from >= 0 && from < par1.len() {
        assert(agree_except(par1, v1, par2, v2, j, from + 1, k0));
        lemma_child_sum_diff(par1, v1, par2, v2, j, from + 1, k0);
        if from != k0 {
            assert((par1[from] as int == j) == (par2[from] as int == j));
        }
    }
}

/// Below any ancestor `j` of `x` other than `x`, the chain from `x` passes through a
/// child of `j`.
pub(crate) proof fn lemma_chain_child(nodes: Seq<Node>, x: int, j: int) -> (c: int)
    requires
        nodes_wf(nodes),
        reaches(nodes, x, j),
        x != j,
    ensures
        0 <= c < nodes.len(),
        reaches(nodes, x, c),
        nodes[c].parent as int == j,
        j < c,
    decreases x,
{
    let q = nodes[x].parent as int;
    if q == j {
        assert(reaches(nodes, x, x));
        x
    } else {
        lemma_chain_child(nodes, q, j)
    }
}

/// On the chain above `id`, the children of `j` other than `k0` (the one on the chain)
/// keep their parent and value.
#[verifier::spinoff_prover]
pub(crate) proof fn lemma_agree_on_chain(old: Seq<Node>, id: int, vo: Seq<int>, vn: Seq<int>, j: int, k0: int)
    requires
        nodes_wf(old),
        0 <= id < old.len(),
        old[id].parent != NONE,
        vo.len() == old.len(),
        vn.len() == old.len(),
        detached_values(old, id, vo, vn),
        j != id,
        reaches(old, old[id].parent as int, j),
        j == old[id].parent ==> k0 == id,
        j != old[id].parent ==> {
            &&& 0 <= k0 < old.len()
            &&& reaches(old, old[id].parent as int, k0)
            &&& old[k0].parent as int == j
            &&& j < k0
        },
    ensures
        agree_except(parents_of(old), vo, parents_of(old).update(id, NONE), vn, j, j + 1, k0),
{
    let p = old[id].parent as int;
    let po = parents_of(old);
    let pn = po.update(id, NONE);
    assert forall|k: int|
        #![trigger po[k]]
        j + 1 <= k < po.len() && k != k0 implies (po[k] as int == j) == (pn[k] as int == j) && (po[k]
            as int == j ==> vo[k] == vn[k]) by {
        if k == id {
            assert(po[k] as int == p);
            assert(j != p);
            assert(pn[k] == NONE);
        } else {
            assert(pn[k] == po[k]);
            assert(po[k] == old[k].parent);
            if po[k] as int == j && reaches(old, p, k) {
                lemma_reaches_le(old, p, k);
                if j != p {
                    lemma_reaches_chain(old, p, k, k0);
                    if reaches(old, k, k0) {
                        assert(reaches(old, j, k0));
                        lemma_reaches_le(old, j, k0);
                    } else {
                        assert(reaches(old, j, k));
                        lemma_reaches_le(old, j, k);
                    }
                }
                assert(false);
            }
            if po[k] as int == j {
                assert(vn[k] == vo[k]);
            }
        }
    }
}

/// Off the chain above `id`, the children of `j` other than `id` keep their parent and value.
#[verifier::spinoff_prover]
pub(crate) proof fn lemma_agree_off_chain(old: Seq<Node>, id: int, vo: Seq<int>, vn: Seq<int>, j: int)
    requires
        nodes_wf(old),
        0 <= id < old.len(),
        old[id].parent != NONE,
        vo.len() == old.len(),
        vn.len() == old.len(),
        detached_values(old, id, vo, vn),
        0 <= j < old.len(),
        !(j != id && reaches(old, old[id].parent as int, j)),
    ensures
        agree_except(parents_of(old), vo, parents_of(old).update(id, NONE), vn, j, j + 1, id),
{
    let p = old[id].parent as int;
    let po = parents_of(old);
    let pn = po.update(id, NONE);
    assert forall|k: int|
        #![trigger po[k]]
        j + 1 <= k < po.len() && k != id implies (po[k] as int == j) == (pn[k] as int == j) && (po[k]
            as int == j ==> vo[k] == vn[k]) by {
        assert(pn[k] == po[k]);
        assert(po[k] == old[k].parent);
        if po[k] as int == j && reaches(old, p, k) {
            assert(reaches(old, k, j)) by {
                assert(reaches(old, j, j));
            }
            lemma_reaches_trans(old, p, k, j);
            if j == id {
                lemma_reaches_le(old, p, id);
            }
            assert(false);
        }
        if po[k] as int == j {
            assert(vn[k] == vo[k]);
        }
    }
}

/// Detaching a node leaves every node's own part (what it holds beyond the sum over its
/// children) unchanged, where every node held at least the sum over its children.
pub(crate) proof fn lemma_detach_own_parts(old: Seq<Node>, new: Seq<Node>, id: int, vo: Seq<int>, vn: Seq<int>)
    requires
        nodes_wf(old),
        0 <= id < old.len(),
        old[id].parent != NONE,
        new.len() == old.len(),
        parents_of(new) == parents_of(old).update(id, NONE),
        vo.len() == old.len(),
        vn.len() == old.len(),
        all_nonneg(vo),
        forall|j: int|
            #![trigger vo[j]]
            0 <= j < old.len() ==> vo[j] >= child_sum(parents_of(old), vo, j, j + 1),
        detached_values(old, id, vo, vn),
    ensures
        forall|j: int|
            #![trigger vn[j]]
            0 <= j < old.len() ==> vn[j] - child_sum(parents_of(new), vn, j, j + 1) == vo[j]
                - child_sum(parents_of(old), vo, j, j + 1),
{
    assert forall|k: int| #![trigger vo[k]] reaches(old, old[id].parent as int, k) implies vo[k] >= child_sum(
        parents_of(old),
        vo,
        k,
        k + 1,
    ) by {
        lemma_reaches_le(old, old[id].parent as int, k);
    }
    assert forall|j: int| #![trigger vn[j]] 0 <= j < old.len() implies vn[j] - child_sum(parents_of(new), vn, j, j + 1)
        == vo[j] - child_sum(parents_of(old), vo, j, j + 1) by {
        lemma_detach_own_part_at(old, new, id, vo, vn, j);
    }
}

/// `lemma_detach_own_parts` at one node.
#[verifier::spinoff_prover]
pub(crate) proof fn lemma_detach_own_part_at(old: Seq<Node>, new: Seq<Node>, id: int, vo: Seq<int>, vn: Seq<int>, j: int)
    requires
        nodes_wf(old),
        0 <= id < old.len(),
        old[id].parent != NONE,
        new.len() == old.len(),
        parents_of(new) == parents_of(old).update(id, NONE),
        vo.len() == old.len(),
        vn.len() == old.len(),
        all_nonneg(vo),
        j != id && reaches(old, old[id].parent as int, j) ==> forall|k: int|
            #![trigger vo[k]]
            reaches(old, old[id].parent as int, k) ==> vo[k] >= child_sum(parents_of(old), vo, k, k + 1),
        detached_values(old, id, vo, vn),
        0 <= j < old.len(),
    ensures
        vn[j] - child_sum(parents_of(new), vn, j, j + 1) == vo[j] - child_sum(parents_of(old), vo, j, j + 1),
{
    let p = old[id].parent as int;
    let po = parents_of(old);
    let pn = parents_of(new);
    assert(p < id);
    assert(reaches(old, id, p)) by {
        assert(reaches(old, p, p));
    }
    if j != id && reaches(old, p, j) {
        assert forall|k: int| #![trigger vo[k]] reaches(old, id, k) && k != id implies vo[k] >= child_sum(
            po,
            vo,
            k,
            k + 1,
        ) by {
            assert(reaches(old, p, k));
        }
        lemma_reaches_trans(old, id, p, j);
        lemma_ancestor_ge(old, vo, id, j);
        lemma_reaches_le(old, p, j);
        let k0: int = if j == p {
            id
        } else {
            lemma_chain_child(old, p, j)
        };
        lemma_agree_on_chain(old, id, vo, vn, j, k0);
        lemma_child_sum_diff(po, vo, pn, vn, j, j + 1, k0);
        if j == p {
            assert(po[id] as int == p);
            assert(pn[id] == NONE);
        } else {
            assert(po[k0] as int == j && pn[k0] as int == j);
            lemma_reaches_trans(old, id, p, k0);
            lemma_ancestor_ge(old, vo, id, k0);
            assert(vn[k0] == vo[k0] - vo[id]);
        }
        assert(vn[j] == vo[j] - vo[id]);
    } else {
        lemma_agree_off_chain(old, id, vo, vn, j);
        lemma_child_sum_diff(po, vo, pn, vn, j, j + 1, id);
        if j != id {
            assert(po[id] as int == p);
            assert(j != p) by {
                assert(reaches(old, p, p));
            }
        }
        assert(vn[j] == vo[j]);
    }
}

/// The bookkeeping half of `detach`: own parts are kept and consistency carries over.
pub(crate) proof fn lemma_detach_counts(old: Seq<Node>, new: Seq<Node>, id: int)
    requires
        nodes_wf(old),
        0 <= id < old.len(),
        old[id].parent != NONE,
        new.len() == old.len(),
        counts_consistent(old),
        forall|j: int| #![trigger new[j]] 0 <= j < new.len() ==> detach_effect(new, old, id, j),
    ensures
        counts_consistent(new),
        forall|j: int|
            #![trigger new[j]]
            0 <= j < new.len() ==> {
                &&& own_part(new, sizes_of(new), j) == own_part(old, sizes_of(old), j)
                &&& own_part(new, files_of(new), j) == own_part(old, files_of(old), j)
                &&& own_part(new, dirs_of(new), j) == own_part(old, dirs_of(old), j)
            },
{
    let p = old[id].parent as int;
    assert(parents_of(new) =~= parents_of(old).update(id, NONE)) by {
        assert forall|j: int| 0 <= j < new.len() implies #[trigger] parents_of(new)[j] == parents_of(old).update(id, NONE)[j] by {
            assert(detach_effect(new, old, id, j));
        }
    }
    assert forall|j: int| #![trigger old[j]] 0 <= j < old.len() implies {
        &&& sizes_of(old)[j] >= child_sum(parents_of(old), sizes_of(old), j, j + 1)
        &&& files_of(old)[j] >= child_sum(parents_of(old), files_of(old), j, j + 1)
        &&& dirs_of(old)[j] >= child_sum(parents_of(old), dirs_of(old), j, j + 1)
    } by {
        assert(own_part(old, sizes_of(old), j) >= 0);
    }
    assert(detached_values(old, id, sizes_of(old), sizes_of(new))) by {
        assert forall|j: int| #![trigger sizes_of(new)[j]] 0 <= j < old.len() implies sizes_of(new)[j] == if j != id && reaches(old, p, j) {
            if sizes_of(old)[j] >= sizes_of(old)[id] { sizes_of(old)[j] - sizes_of(old)[id] } else { 0 }
        } else { sizes_of(old)[j] } by {
            assert(detach_effect(new, old, id, j));
        }
    }
    assert(detached_values(old, id, files_of(old), files_of(new))) by {
        assert forall|j: int| #![trigger files_of(new)[j]] 0 <= j < old.len() implies files_of(new)[j] == if j != id && reaches(old, p, j) {
            if files_of(old)[j] >= files_of(old)[id] { files_of(old)[j] - files_of(old)[id] } else { 0 }
        } else { files_of(old)[j] } by {
            assert(detach_effect(new, old, id, j));
        }
    }
    assert(detached_values(old, id, dirs_of(old), dirs_of(new))) by {
        assert forall|j: int| #![trigger dirs_of(new)[j]] 0 <= j < old.len() implies dirs_of(new)[j] == if j != id && reaches(old, p, j) {
            if dirs_of(old)[j] >= dirs_of(old)[id] { dirs_of(old)[j] - dirs_of(old)[id] } else { 0 }
        } else { dirs_of(old)[j] } by {
            assert(detach_effect(new, old, id, j));
        }
    }
    assert forall|j: int| #![trigger sizes_of(old)[j]] 0 <= j < old.len() implies sizes_of(old)[j] >= child_sum(parents_of(old), sizes_of(old), j, j + 1) by {
        assert(old[j] == old[j]);
    }
    assert forall|j: int| #![trigger files_of(old)[j]] 0 <= j < old.len() implies files_of(old)[j] >= child_sum(parents_of(old), files_of(old), j, j + 1) by {
        assert(old[j] == old[j]);
    }
    assert forall|j: int| #![trigger dirs_of(old)[j]] 0 <= j < old.len() implies dirs_of(old)[j] >= child_sum(parents_of(old), dirs_of(old), j, j + 1) by {
        assert(old[j] == old[j]);
    }
    lemma_detach_own_parts(old, new, id, sizes_of(old), sizes_of(new));
    lemma_detach_own_parts(old, new, id, files_of(old), files_of(new));
    lemma_detach_own_parts(old, new, id, dirs_of(old), dirs_of(new));
    assert forall|j: int| #![trigger new[j]] 0 <= j < new.len() implies {
        &&& own_part(new, sizes_of(new), j) == own_part(old, sizes_of(old), j)
        &&& own_part(new, files_of(new), j) == own_part(old, files_of(old), j)
        &&& own_part(new, dirs_of(new), j) == own_part(old, dirs_of(old), j)
    } by {
        assert(sizes_of(new)[j] == sizes_of(new)[j]);
        assert(files_of(new)[j] == files_of(new)[j]);
        assert(dirs_of(new)[j] == dirs_of(new)[j]);
    }
    assert forall|j: int| 0 <= j < new.len() implies {
        &&& #[trigger] own_part(new, sizes_of(new), j) >= 0
        &&& own_part(new, files_of(new), j) >= 0
        &&& own_part(new, dirs_of(new), j) >= 0
    } by {
        assert(new[j] == new[j]);
        assert(own_part(old, sizes_of(old), j) >= 0);
    }
}

/// Replacing a child list by a reordering of itself keeps the arena well-formed.
pub(crate) proof fn lemma_reorder_children_wf(nodes: Seq<Node>, id: int, n: Node, perm: Seq<int>)
    requires
        nodes_wf(nodes),
        0 <= id < nodes.len(),
        n.parent == nodes[id].parent,
        is_reordering(perm, nodes[id].children@.len() as int),
        n.children@.len() == nodes[id].children@.len(),
        forall|i: int|
            #![trigger n.children@[i]]
            0 <= i < n.children@.len() ==> n.children@[i] == nodes[id].children@[perm[i]],
    ensures
        nodes_wf(nodes.update(id, n)),
{
    let new = nodes.update(id, n);
    let old_ch = nodes[id].children@;
    assert forall|p: int, k: int|
        0 <= p < new.len() && 0 <= k < new[p].children@.len() implies {
            &&& new[p].children@[k] < new.len()
            &&& new[new[p].children@[k] as int].parent == p
        } by {
        if p == id {
            assert(old_ch[perm[k]] == nodes[p].children@[perm[k]]);
        } else {
            assert(new[p].children@[k] == nodes[p].children@[k]);
        }
    }
    assert forall|p: int, k1: int, k2: int|
        0 <= p < new.len() && 0 <= k1 < k2 < new[p].children@.len() implies new[p].children@[k1]
            != new[p].children@[k2] by {
        if p == id {
            let a = perm[k1];
            let b = perm[k2];
            assert(a != b);
            if a < b {
                assert(nodes[p].children@[a] != nodes[p].children@[b]);
            } else {
                assert(nodes[p].children@[b] != nodes[p].children@[a]);
            }
        } else {
            assert(nodes[p].children@[k1] != nodes[p].children@[k2]);
        }
    }
    assert forall|c: int|
        0 <= c < new.len() && new[c].parent != NONE implies new[new[c].parent as int].children@.contains(
            c as u32,
        ) by {
        let p = new[c].parent as int;
        assert(nodes[c].parent == new[c].parent);
        assert(nodes[p].children@.contains(c as u32));
        if p == id {
            let m = choose|m: int| 0 <= m < old_ch.len() && old_ch[m] == c as u32;
            assert(covered(perm, m));
            let i = choose|i: int| 0 <= i < perm.len() && perm[i] == m;
            assert(new[p].children@[i] == c as u32);
        }
    }
}

/// A child list that is a largest-first reordering has non-increasing sizes.
pub(crate) proof fn lemma_sorted_desc_pairs(new: Seq<u32>, old: Seq<u32>, size: Seq<int>)
    requires
        sorted_desc_stable(new, old, size),
    ensures
        forall|k1: int, k2: int|
            #![trigger new[k1], new[k2]]
            0 <= k1 < k2 < new.len() ==> size[new[k1] as int] >= size[new[k2] as int],
{
    let perm = choose|perm: Seq<int>| #[trigger] is_reordering(perm, old.len() as int) && reorders_desc(new, old, size, perm);
    assert(reorders_desc(new, old, size, perm));
}

/// Finalize's stable largest-first child lists are sorted by size.
pub(crate) proof fn lemma_sorted_lists(new: Seq<Node>, old: Seq<Node>)
    requires
        nodes_wf(new),
        new.len() == old.len(),
        forall|i: int|
            #![trigger new[i]]
            0 <= i < new.len() ==> sorted_desc_stable(new[i].children@, old[i].children@, sizes_of(new)),
    ensures
        children_sorted(new),
{
    assert forall|q: int, k1: int, k2: int|
        0 <= q < new.len() && 0 <= k1 < k2 < new[q].children@.len() implies
            #[trigger] new[new[q].children@[k1] as int].size >= #[trigger] new[new[q].children@[k2] as int].size by {
        let ch = new[q].children@;
        assert(sorted_desc_stable(ch, old[q].children@, sizes_of(new)));
        lemma_sorted_desc_pairs(ch, old[q].children@, sizes_of(new));
        assert(ch[k1] < new.len() && ch[k2] < new.len());
        assert(sizes_of(new)[ch[k1] as int] >= sizes_of(new)[ch[k2] as int]);
    }
}

/// Off the chain from the detached node's parent up, a child of a node keeps its size.
proof fn lemma_detach_child_size(old: Seq<Node>, new: Seq<Node>, id: int, q: int, c: int)
    requires
        nodes_wf(old),
        0 <= id < old.len(),
        old[id].parent != NONE,
        new.len() == old.len(),
        forall|j: int| #![trigger new[j]] 0 <= j < new.len() ==> detach_effect(new, old, id, j),
        0 <= q < old.len(),
        0 <= c < old.len(),
        old[c].parent as int == q,
        q == id || !reaches(old, old[id].parent as int, q),
    ensures
        new[c].size == old[c].size,
{
    let p = old[id].parent as int;
    assert(detach_effect(new, old, id, c));
    if c != id && reaches(old, p, c) {
        assert(old[c].parent != NONE);
        assert(q < c);
        assert(reaches(old, q, q));
        assert(reaches(old, c, q));
        lemma_reaches_trans(old, p, c, q);
        if q == id {
            lemma_reaches_le(old, p, id);
            assert(p < id);
        }
    }
}

/// Detaching keeps every child list sorted by size, largest first.
pub(crate) proof fn lemma_detach_keeps_sorted(old: Seq<Node>, new: Seq<Node>, id: int)
    requires
        nodes_wf(old),
        nodes_wf(new),
        0 <= id < old.len(),
        old[id].parent != NONE,
        new.len() == old.len(),
        forall|j: int| #![trigger new[j]] 0 <= j < new.len() ==> detach_effect(new, old, id, j),
        children_sorted(old),
    ensures
        children_sorted(new),
{
    let p = old[id].parent as int;
    assert forall|q: int, k1: int, k2: int|
        0 <= q < new.len() && 0 <= k1 < k2 < new[q].children@.len() implies
            #[trigger] new[new[q].children@[k1] as int].size >= #[trigger] new[new[q].children@[k2] as int].size by {
        assert(detach_effect(new, old, id, q));
        let ch = new[q].children@;
        assert(ch[k1] < new.len() && ch[k2] < new.len());
        if q != id && reaches(old, p, q) {
            let from = if q == p { crate::tree::without(old[q].children@, id as u32) } else { old[q].children@ };
            lemma_sorted_desc_pairs(ch, from, sizes_of(new));
            assert(sizes_of(new)[ch[k1] as int] >= sizes_of(new)[ch[k2] as int]);
        } else {
            assert(new[q].children == old[q].children);
            assert(old[q].children@[k1] == ch[k1]);
            assert(old[q].children@[k2] == ch[k2]);
            lemma_detach_child_size(old, new, id, q, ch[k1] as int);
            lemma_detach_child_size(old, new, id, q, ch[k2] as int);
            assert(old[ch[k1] as int].size >= old[ch[k2] as int].size);
        }
    }
}

/// Where every node from the detached node's parent up holds at least the sums over its
/// children, every such ancestor holds at least what the detached node holds, so
/// detaching subtracts exactly, with no rounding at 0.
pub(crate) proof fn lemma_detach_exact(old: Seq<Node>, new: Seq<Node>, id: int)
    requires
        nodes_wf(old),
        0 <= id < old.len(),
        old[id].parent != NONE,
        new.len() == old.len(),
        forall|k: int|
            reaches(old, old[id].parent as int, k) ==> {
                &&& #[trigger] own_part(old, sizes_of(old), k) >= 0
                &&& own_part(old, files_of(old), k) >= 0
                &&& own_part(old, dirs_of(old), k) >= 0
            },
        forall|j: int| #![trigger new[j]] 0 <= j < new.len() ==> detach_effect(new, old, id, j),
    ensures
        forall|j: int|
            #![trigger new[j]]
            0 <= j < new.len() && j != id && reaches(old, old[id].parent as int, j) ==> {
                &&& new[j].size == old[j].size - old[id].size
                &&& new[j].files == old[j].files - old[id].files
                &&& new[j].dirs == old[j].dirs - old[id].dirs
            },
{
    let p = old[id].parent as int;
    let po = parents_of(old);
    assert forall|k: int| #![trigger sizes_of(old)[k]] reaches(old, id, k) && k != id implies sizes_of(old)[k]
        >= child_sum(po, sizes_of(old), k, k + 1) by {
        assert(reaches(old, p, k));
        assert(own_part(old, sizes_of(old), k) >= 0);
    }
    assert forall|k: int| #![trigger files_of(old)[k]] reaches(old, id, k) && k != id implies files_of(old)[k]
        >= child_sum(po, files_of(old), k, k + 1) by {
        assert(reaches(old, p, k));
        assert(own_part(old, sizes_of(old), k) >= 0);
        assert(own_part(old, files_of(old), k) >= 0);
    }
    assert forall|k: int| #![trigger dirs_of(old)[k]] reaches(old, id, k) && k != id implies dirs_of(old)[k]
        >= child_sum(po, dirs_of(old), k, k + 1) by {
        assert(reaches(old, p, k));
        assert(own_part(old, sizes_of(old), k) >= 0);
        assert(own_part(old, dirs_of(old), k) >= 0);
    }
    assert(all_nonneg(sizes_of(old)));
    assert(all_nonneg(files_of(old)));
    assert(all_nonneg(dirs_of(old)));
    assert(reaches(old, p, p));
    assert(reaches(old, id, p));
    assert forall|j: int|
        #![trigger new[j]]
        0 <= j < new.len() && j != id && reaches(old, p, j) implies {
            &&& new[j].size == old[j].size - old[id].size
            &&& new[j].files == old[j].files - old[id].files
            &&& new[j].dirs == old[j].dirs - old[id].dirs
        } by {
        assert(detach_effect(new, old, id, j));
        lemma_reaches_trans(old, id, p, j);
        lemma_ancestor_ge(old, sizes_of(old), id, j);
        lemma_ancestor_ge(old, files_of(old), id, j);
        lemma_ancestor_ge(old, dirs_of(old), id, j);
        assert(sizes_of(old)[j] >= sizes_of(old)[id]);
        assert(files_of(old)[j] >= files_of(old)[id]);
        assert(dirs_of(old)[j] >= dirs_of(old)[id]);
    }
}

/// A walk up that does not pass the unlinked node `id` is the same before and after.
proof fn lemma_reaches_after_unlink(old: Seq<Node>, new: Seq<Node>, id: int, j: int, a: int)
    requires
        new.len() == old.len(),
        0 <= id < old.len(),
        parents_of(new) == parents_of(old).update(id, NONE),
        reaches(new, j, a),
        a != id,
    ensures
        reaches(old, j, a),
    decreases j,
{
    if j != a {
        assert(parents_of(new)[j] == new[j].parent);
        assert(parents_of(old)[j] == old[j].parent);
        assert(j != id);
        lemma_reaches_after_unlink(old, new, id, new[j].parent as int, a);
    }
}

/// Every ancestor of a node attached to the root is attached too.
proof fn lemma_attached_up(nodes: Seq<Node>, x: int, k: int)
    requires
        reaches(nodes, x, 0),
        reaches(nodes, x, k),
    ensures
        reaches(nodes, k, 0),
{
    lemma_reaches_chain(nodes, x, k, 0);
    if reaches(nodes, 0, k) {
        lemma_reaches_le(nodes, 0, k);
    }
}

/// Along the way up from a node attached to the root, every node holds at least the sums
/// over its children.
proof fn lemma_chain_sums(old: Seq<Node>, p: int)
    requires
        nodes_wf(old),
        attached_consistent(old),
        reaches(old, p, 0),
    ensures
        forall|k: int| #![trigger sizes_of(old)[k]] reaches(old, p, k) ==> sizes_of(old)[k] >= child_sum(
            parents_of(old),
            sizes_of(old),
            k,
            k + 1,
        ),
        forall|k: int| #![trigger files_of(old)[k]] reaches(old, p, k) ==> files_of(old)[k] >= child_sum(
            parents_of(old),
            files_of(old),
            k,
            k + 1,
        ),
        forall|k: int| #![trigger dirs_of(old)[k]] reaches(old, p, k) ==> dirs_of(old)[k] >= child_sum(
            parents_of(old),
            dirs_of(old),
            k,
            k + 1,
        ),
{
    assert forall|k: int| reaches(old, p, k) implies {
        &&& #[trigger] own_part(old, sizes_of(old), k) >= 0
        &&& own_part(old, files_of(old), k) >= 0
        &&& own_part(old, dirs_of(old), k) >= 0
    } by {
        lemma_attached_up(old, p, k);
        lemma_reaches_le(old, p, k);
    }
    assert forall|k: int| #![trigger sizes_of(old)[k]] reaches(old, p, k) implies sizes_of(old)[k] >= child_sum(
        parents_of(old),
        sizes_of(old),
        k,
        k + 1,
    ) by {
        assert(own_part(old, sizes_of(old), k) >= 0);
    }
    assert forall|k: int| #![trigger files_of(old)[k]] reaches(old, p, k) implies files_of(old)[k] >= child_sum(
        parents_of(old),
        files_of(old),
        k,
        k + 1,
    ) by {
        assert(own_part(old, sizes_of(old), k) >= 0);
    }
    assert forall|k: int| #![trigger dirs_of(old)[k]] reaches(old, p, k) implies dirs_of(old)[k] >= child_sum(
        parents_of(old),
        dirs_of(old),
        k,
        k + 1,
    ) by {
        assert(own_part(old, sizes_of(old), k) >= 0);
    }
}

/// Where only the nodes attached to the root are consistent, detaching keeps the own
/// part of every node still attached, keeps those nodes consistent, and, when the
/// detached node hung below the root, subtracts exactly along the way up.
pub(crate) proof fn lemma_detach_attached(old: Seq<Node>, new: Seq<Node>, id: int)
    requires
        nodes_wf(old),
        0 <= id < old.len(),
        old[id].parent != NONE,
        new.len() == old.len(),
        attached_consistent(old),
        forall|j: int| #![trigger new[j]] 0 <= j < new.len() ==> detach_effect(new, old, id, j),
    ensures
        attached_consistent(new),
        forall|j: int|
            #![trigger new[j]]
            0 <= j < new.len() && reaches(new, j, 0) ==> {
                &&& own_part(new, sizes_of(new), j) == own_part(old, sizes_of(old), j)
                &&& own_part(new, files_of(new), j) == own_part(old, files_of(old), j)
                &&& own_part(new, dirs_of(new), j) == own_part(old, dirs_of(old), j)
            },
        reaches(old, old[id].parent as int, 0) ==> forall|j: int|
            #![trigger new[j]]
            0 <= j < new.len() && j != id && reaches(old, old[id].parent as int, j) ==> {
                &&& new[j].size == old[j].size - old[id].size
                &&& new[j].files == old[j].files - old[id].files
                &&& new[j].dirs == old[j].dirs - old[id].dirs
            },
{
    let p = old[id].parent as int;
    let po = parents_of(old);
    assert(parents_of(new) =~= po.update(id, NONE)) by {
        assert forall|j: int| 0 <= j < new.len() implies #[trigger] parents_of(new)[j] == po.update(id, NONE)[j] by {
            assert(detach_effect(new, old, id, j));
        }
    }
    assert(detached_values(old, id, sizes_of(old), sizes_of(new))) by {
        assert forall|j: int| #![trigger sizes_of(new)[j]] 0 <= j < old.len() implies sizes_of(new)[j] == if j != id && reaches(old, p, j) {
            if sizes_of(old)[j] >= sizes_of(old)[id] { sizes_of(old)[j] - sizes_of(old)[id] } else { 0 }
        } else { sizes_of(old)[j] } by {
            assert(detach_effect(new, old, id, j));
        }
    }
    assert(detached_values(old, id, files_of(old), files_of(new))) by {
        assert forall|j: int| #![trigger files_of(new)[j]] 0 <= j < old.len() implies files_of(new)[j] == if j != id && reaches(old, p, j) {
            if files_of(old)[j] >= files_of(old)[id] { files_of(old)[j] - files_of(old)[id] } else { 0 }
        } else { files_of(old)[j] } by {
            assert(detach_effect(new, old, id, j));
        }
    }
    assert(detached_values(old, id, dirs_of(old), dirs_of(new))) by {
        assert forall|j: int| #![trigger dirs_of(new)[j]] 0 <= j < old.len() implies dirs_of(new)[j] == if j != id && reaches(old, p, j) {
            if dirs_of(old)[j] >= dirs_of(old)[id] { dirs_of(old)[j] - dirs_of(old)[id] } else { 0 }
        } else { dirs_of(old)[j] } by {
            assert(detach_effect(new, old, id, j));
        }
    }
    assert(all_nonneg(sizes_of(old)));
    assert(all_nonneg(files_of(old)));
    assert(all_nonneg(dirs_of(old)));
    if reaches(old, p, 0) {
        assert forall|k: int| reaches(old, p, k) implies {
            &&& #[trigger] own_part(old, sizes_of(old), k) >= 0
            &&& own_part(old, files_of(old), k) >= 0
            &&& own_part(old, dirs_of(old), k) >= 0
        } by {
            lemma_attached_up(old, p, k);
            lemma_reaches_le(old, p, k);
        }
        lemma_detach_exact(old, new, id);
    }
    assert forall|j: int|
        #![trigger new[j]]
        0 <= j < new.len() && reaches(new, j, 0) implies {
            &&& own_part(new, sizes_of(new), j) == own_part(old, sizes_of(old), j)
            &&& own_part(new, files_of(new), j) == own_part(old, files_of(old), j)
            &&& own_part(new, dirs_of(new), j) == own_part(old, dirs_of(old), j)
        } by {
        assert(id != 0);
        lemma_reaches_after_unlink(old, new, id, j, 0);
        if j != id && reaches(old, p, j) {
            lemma_reaches_trans(old, p, j, 0);
            lemma_chain_sums(old, p);
        }
        lemma_detach_own_part_at(old, new, id, sizes_of(old), sizes_of(new), j);
        lemma_detach_own_part_at(old, new, id, files_of(old), files_of(new), j);
        lemma_detach_own_part_at(old, new, id, dirs_of(old), dirs_of(new), j);
        assert(sizes_of(new)[j] == sizes_of(new)[j]);
        assert(files_of(new)[j] == files_of(new)[j]);
        assert(dirs_of(new)[j] == dirs_of(new)[j]);
    }
    assert forall|j: int| 0 <= j < new.len() && reaches(new, j, 0) implies {
        &&& #[trigger] own_part(new, sizes_of(new), j) >= 0
        &&& own_part(new, files_of(new), j) >= 0
        &&& own_part(new, dirs_of(new), j) >= 0
    } by {
        assert(new[j] == new[j]);
        assert(id != 0);
        lemma_reaches_after_unlink(old, new, id, j, 0);
        assert(own_part(old, sizes_of(old), j) >= 0);
    }
}

/// The conditional laws of `detach`, for a node that had a parent.
pub(crate) proof fn lemma_detach_laws(old: Seq<Node>, new: Seq<Node>, id: int)
    requires
        nodes_wf(old),
        nodes_wf(new),
        0 <= id < old.len(),
        old[id].parent != NONE,
        new.len() == old.len(),
        forall|j: int| #![trigger new[j]] 0 <= j < new.len() ==> detach_effect(new, old, id, j),
    ensures
        counts_consistent(old) ==> counts_consistent(new),
        counts_consistent(old) ==> forall|j: int|
            #![trigger new[j]]
            0 <= j < new.len() ==> {
                &&& own_part(new, sizes_of(new), j) == own_part(old, sizes_of(old), j)
                &&& own_part(new, files_of(new), j) == own_part(old, files_of(old), j)
                &&& own_part(new, dirs_of(new), j) == own_part(old, dirs_of(old), j)
            },
        counts_consistent(old) ==> forall|j: int|
            #![trigger new[j]]
            0 <= j < new.len() && j != id && reaches(old, old[id].parent as int, j) ==> {
                &&& new[j].size == old[j].size - old[id].size
                &&& new[j].files == old[j].files - old[id].files
                &&& new[j].dirs == old[j].dirs - old[id].dirs
            },
        attached_consistent(old) ==> attached_consistent(new),
        attached_consistent(old) ==> forall|j: int|
            #![trigger new[j]]
            0 <= j < new.len() && reaches(new, j, 0) ==> {
                &&& own_part(new, sizes_of(new), j) == own_part(old, sizes_of(old), j)
                &&& own_part(new, files_of(new), j) == own_part(old, files_of(old), j)
                &&& own_part(new, dirs_of(new), j) == own_part(old, dirs_of(old), j)
            },
        attached_consistent(old) && reaches(old, old[id].parent as int, 0) ==> forall|j: int|
            #![trigger new[j]]
            0 <= j < new.len() && j != id && reaches(old, old[id].parent as int, j) ==> {
                &&& new[j].size == old[j].size - old[id].size
                &&& new[j].files == old[j].files - old[id].files
                &&& new[j].dirs == old[j].dirs - old[id].dirs
            },
        children_sorted(old) ==> children_sorted(new),
{
    let p = old[id].parent as int;
    if counts_consistent(old) {
        lemma_detach_counts(old, new, id);
        assert forall|k: int| reaches(old, p, k) implies {
            &&& #[trigger] own_part(old, sizes_of(old), k) >= 0
            &&& own_part(old, files_of(old), k) >= 0
            &&& own_part(old, dirs_of(old), k) >= 0
        } by {
            lemma_reaches_le(old, p, k);
        }
        lemma_detach_exact(old, new, id);
    }
    if attached_consistent(old) {
        lemma_detach_attached(old, new, id);
    }
    if children_sorted(old) {
        lemma_detach_keeps_sorted(old, new, id);
    }
}

} // verus!
