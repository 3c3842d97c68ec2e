use vstd::prelude::*;
use vstd::utf8::{decode_utf8, encode_utf8, valid_utf8};
use crate::text::{ends_with_slash, lossy_string, push_char, utf8_lossy};
use crate::tree_facts::{
    lemma_child_sum_of_totals,
    lemma_below_mono,
    lemma_same_shape_wf,
    lemma_reaches_le,
    lemma_reaches_chain,
    lemma_reaches_trans,
    lemma_sorted_same_sizes,
    lemma_unlink_wf,
    lemma_reorder_children_wf,
    lemma_sorted_lists,
    lemma_detach_laws,
};

verus! {

/// The id that stands for "no node": the parent of the root and of detached nodes.
pub const NONE: u32 = 4294967295u32;

/// One file or folder of a scanned tree.
pub struct Node {
    /// Name for display (lossy when the file name is not UTF-8).
    pub name: String,
    /// The raw bytes of the file name when it is not UTF-8; paths are built from these.
    pub raw_name: Option<Vec<u8>>,
    /// Space taken on disk, subtree included, in bytes.
    pub size: u64,
    pub mtime: i64,
    pub parent: u32,
    pub children: Vec<u32>,
    /// Depth below the scan root (the root has depth 0).
    pub depth: u16,
    pub is_dir: bool,
    /// Files and folders in the subtree, the node itself included.
    pub files: u64,
    pub dirs: u64,
}

/// A scanned directory tree, stored as an arena of nodes indexed by `u32` ids.
pub struct Tree {
    pub nodes: Vec<Node>,
    /// The path of the scan root, as raw bytes.
    pub root_path: Vec<u8>,
    /// Total and free space of the file system that holds the root.
    pub fs_total: u64,
    pub fs_free: u64,
    /// Whether the root is a mount point (free space only means something then).
    pub is_mount: bool,
}

/// The bytes of a node's path component: the raw name if any, else the UTF-8 of its name.
pub open spec fn component(n: Node) -> Seq<u8> {
    match n.raw_name {
        Some(raw) => raw@,
        None => encode_utf8(n.name@),
    }
}

/// `PathBuf::push` on Unix: an absolute component replaces the path; otherwise a
/// separator is added unless the path is empty or already ends with one.
pub open spec fn push_component(p: Seq<u8>, c: Seq<u8>) -> Seq<u8> {
    if c.len() > 0 && c[0] == 47u8 {
        c
    } else if p.len() > 0 && p.last() != 47u8 {
        p.push(47u8) + c
    } else {
        p + c
    }
}

/// Parents never come after their children: a node's parent is `NONE` or a smaller id.
pub open spec fn parents_precede(nodes: Seq<Node>) -> bool {
    forall|i: int|
        #![trigger nodes[i].parent]
        0 <= i < nodes.len() ==> (nodes[i].parent == NONE || nodes[i].parent < i)
}

/// Each child list holds, without repetition, exactly the nodes that name that parent.
pub open spec fn children_match(nodes: Seq<Node>) -> bool {
    &&& forall|p: int, k: int|
        #![trigger nodes[p].children@[k]]
        0 <= p < nodes.len() && 0 <= k < nodes[p].children@.len() ==> {
            &&& nodes[p].children@[k] < nodes.len()
            &&& nodes[nodes[p].children@[k] as int].parent == p
        }
    &&& forall|p: int, k1: int, k2: int|
        #![trigger nodes[p].children@[k1], nodes[p].children@[k2]]
        0 <= p < nodes.len() && 0 <= k1 < k2 < nodes[p].children@.len()
            ==> nodes[p].children@[k1] != nodes[p].children@[k2]
    &&& forall|c: int|
        #![trigger nodes[c].parent]
        0 <= c < nodes.len() && nodes[c].parent != NONE
            ==> nodes[nodes[c].parent as int].children@.contains(c as u32)
}

/// Well-formed arena: ids fit below `NONE`, parents precede children, child lists match.
pub open spec fn nodes_wf(nodes: Seq<Node>) -> bool {
    &&& nodes.len() <= NONE
    &&& parents_precede(nodes)
    &&& children_match(nodes)
}

/// Whether `anc` is `id` or one of its ancestors.
pub open spec fn reaches(nodes: Seq<Node>, id: int, anc: int) -> bool
    decreases id,
{
    if !(0 <= id < nodes.len()) {
        false
    } else if id == anc {
        true
    } else if nodes[id].parent == NONE || nodes[id].parent >= id {
        false
    } else {
        reaches(nodes, nodes[id].parent as int, anc)
    }
}

/// The path of node `id`: the root path with the components of the ancestors below
/// the root and of `id` itself pushed in order. `NONE` and the root give the root path.
pub open spec fn path_of(nodes: Seq<Node>, root: Seq<u8>, id: int) -> Seq<u8>
    decreases id,
{
    if id <= 0 || id >= nodes.len() {
        root
    } else if nodes[id].parent == NONE || nodes[id].parent >= id {
        push_component(root, component(nodes[id]))
    } else {
        push_component(path_of(nodes, root, nodes[id].parent as int), component(nodes[id]))
    }
}

/// Appends `c` to `p` as `PathBuf::push` does on Unix.
fn push_component_exec(p: &mut Vec<u8>, c: &[u8])
    ensures
        final(p)@ == push_component(old(p)@, c@),
{
    if c.len() > 0 && c[0] == 47u8 {
        p.clear();
    } else if p.len() > 0 && p[p.len() - 1] != 47u8 {
        p.push(47u8);
    }
    let ghost base = p@;
    let mut i: usize = 0;
    while i < c.len()
        invariant
            i <= c@.len(),
            p@ == base + c@.subrange(0, i as int),
        decreases c@.len() - i,
    {
        p.push(c[i]);
        i += 1;
        assert(p@ =~= base + c@.subrange(0, i as int));
    }
    assert(c@.subrange(0, c@.len() as int) =~= c@);
    assert(p@ =~= push_component(old(p)@, c@));
}

/// The bytes of a node's path component.
fn component_bytes(n: &Node) -> (b: &[u8])
    ensures
        b@ == component(*n),
{
    match &n.raw_name {
        Some(raw) => raw.as_slice(),
        None => n.name.as_str().as_bytes(),
    }
}

/// A byte-for-byte copy of `v`.
fn copy_bytes(v: &Vec<u8>) -> (r: Vec<u8>)
    ensures
        r@ == v@,
{
    let mut r: Vec<u8> = Vec::new();
    let mut i: usize = 0;
    while i < v.len()
        invariant
            i <= v@.len(),
            r@ == v@.subrange(0, i as int),
        decreases v@.len() - i,
    {
        r.push(v[i]);
        i += 1;
        assert(r@ =~= v@.subrange(0, i as int));
    }
    assert(v@.subrange(0, v@.len() as int) =~= v@);
    r
}

/// The path shown for a node: folders end with `/`.
pub open spec fn display_of(s: Seq<char>, is_dir: bool) -> Seq<char> {
    if is_dir && !(s.len() > 0 && s.last() == '/') {
        s.push('/')
    } else {
        s
    }
}


/// `perm` maps each position of a reordering to the position it came from in a sequence
/// of length `n`: a bijection of `[0, n)`.
pub open spec fn is_reordering(perm: Seq<int>, n: int) -> bool {
    &&& perm.len() == n
    &&& forall|i: int| #![trigger perm[i]] 0 <= i < n ==> 0 <= perm[i] < n
    &&& forall|i: int, j: int| #![trigger perm[i], perm[j]] 0 <= i < j < n ==> perm[i] != perm[j]
    &&& forall|k: int| #![trigger covered(perm, k)] 0 <= k < n ==> covered(perm, k)
}

/// Some position of the reordering came from position `k`.
pub open spec fn covered(perm: Seq<int>, k: int) -> bool {
    exists|i: int| 0 <= i < perm.len() && #[trigger] perm[i] == k
}

/// `new` is `old` stably sorted by the first component, ascending.
pub open spec fn stably_sorted_by_first(new: Seq<(u64, u32)>, old: Seq<(u64, u32)>) -> bool {
    exists|perm: Seq<int>|
        {
            &&& is_reordering(perm, old.len() as int)
            &&& new.len() == old.len()
            &&& forall|i: int| #![trigger new[i]] 0 <= i < new.len() ==> new[i] == old[perm[i]]
            &&& forall|i: int, j: int|
                #![trigger new[i], new[j]]
                0 <= i < j < new.len() ==> new[i].0 < new[j].0 || (new[i].0 == new[j].0 && perm[i]
                    < perm[j])
        }
}

/// `new` is `old` stably sorted by `size`, largest first: a reordering in which a
/// larger size comes first and equal sizes keep their order.
pub open spec fn sorted_desc_stable(new: Seq<u32>, old: Seq<u32>, size: Seq<int>) -> bool {
    exists|perm: Seq<int>| #[trigger] is_reordering(perm, old.len() as int) && reorders_desc(new, old, size, perm)
}

/// `new` is `old` reordered by `perm`, largest size first, ties in their old order.
pub open spec fn reorders_desc(new: Seq<u32>, old: Seq<u32>, size: Seq<int>, perm: Seq<int>) -> bool {
    &&& new.len() == old.len()
    &&& forall|i: int| #![trigger new[i]] 0 <= i < new.len() ==> new[i] == old[perm[i]]
    &&& forall|i: int, j: int|
        #![trigger new[i], new[j]]
        0 <= i < j < new.len() ==> size[new[i] as int] > size[new[j] as int] || (size[new[i] as int]
            == size[new[j] as int] && perm[i] < perm[j])
}

/// Every child list is ordered by size, largest first.
pub open spec fn children_sorted(nodes: Seq<Node>) -> bool {
    forall|q: int, k1: int, k2: int|
        0 <= q < nodes.len() && 0 <= k1 < k2 < nodes[q].children@.len() ==> #[trigger] nodes[nodes[q].children@[k1] as int].size
            >= #[trigger] nodes[nodes[q].children@[k2] as int].size
}

/// The two nodes agree on everything but their child lists.
pub open spec fn same_but_children(a: Node, b: Node) -> bool {
    &&& a.name == b.name
    &&& a.raw_name == b.raw_name
    &&& a.size == b.size
    &&& a.mtime == b.mtime
    &&& a.parent == b.parent
    &&& a.depth == b.depth
    &&& a.is_dir == b.is_dir
    &&& a.files == b.files
    &&& a.dirs == b.dirs
}

/// The two nodes agree on everything but their sizes and counts.
pub open spec fn same_but_counts(a: Node, b: Node) -> bool {
    &&& a.name == b.name
    &&& a.raw_name == b.raw_name
    &&& a.mtime == b.mtime
    &&& a.parent == b.parent
    &&& a.children == b.children
    &&& a.depth == b.depth
    &&& a.is_dir == b.is_dir
}

/// Sizes of all nodes, by id.
pub open spec fn sizes_of(nodes: Seq<Node>) -> Seq<int> {
    Seq::new(nodes.len(), |i: int| nodes[i].size as int)
}


/// Parents of all nodes, by id.
pub open spec fn parents_of(nodes: Seq<Node>) -> Seq<u32> {
    Seq::new(nodes.len(), |i: int| nodes[i].parent)
}

/// File counts of all nodes, by id.
pub open spec fn files_of(nodes: Seq<Node>) -> Seq<int> {
    Seq::new(nodes.len(), |i: int| nodes[i].files as int)
}

/// Folder counts of all nodes, by id.
pub open spec fn dirs_of(nodes: Seq<Node>) -> Seq<int> {
    Seq::new(nodes.len(), |i: int| nodes[i].dirs as int)
}

/// The sum, over the nodes `k >= from` whose parent is `j`, of their subtree totals
/// of `own`.
pub open spec fn below(par: Seq<u32>, own: Seq<int>, j: int, from: int) -> int
    decreases par.len() - from,
{
    if from < 0 || from >= par.len() {
        0
    } else {
        (if par[from] as int == j {
            own[from] + below(par, own, from, from + 1)
        } else {
            0
        }) + below(par, own, j, from + 1)
    }
}

/// The total of `own` over the subtree of node `i`: its own value plus its children's totals.
pub open spec fn subtree_total(par: Seq<u32>, own: Seq<int>, i: int) -> int {
    own[i] + below(par, own, i, i + 1)
}


/// The sum of `vals` over the nodes `k >= from` whose parent is `j`.
pub open spec fn child_sum(par: Seq<u32>, vals: Seq<int>, j: int, from: int) -> int
    decreases par.len() - from,
{
    if from < 0 || from >= par.len() {
        0
    } else {
        (if par[from] as int == j {
            vals[from]
        } else {
            0
        }) + child_sum(par, vals, j, from + 1)
    }
}

/// What node `j` holds of `vals` beyond the sum over its children: its own part.
pub open spec fn own_part(nodes: Seq<Node>, vals: Seq<int>, j: int) -> int {
    vals[j] - child_sum(parents_of(nodes), vals, j, j + 1)
}

/// Every node's size and counts are at least the sums over its children.
pub open spec fn counts_consistent(nodes: Seq<Node>) -> bool {
    forall|j: int|
        0 <= j < nodes.len() ==> {
            &&& #[trigger] own_part(nodes, sizes_of(nodes), j) >= 0
            &&& own_part(nodes, files_of(nodes), j) >= 0
            &&& own_part(nodes, dirs_of(nodes), j) >= 0
        }
}

/// Every node attached to the root holds at least the sums over its children.
pub open spec fn attached_consistent(nodes: Seq<Node>) -> bool {
    forall|j: int|
        0 <= j < nodes.len() && reaches(nodes, j, 0) ==> {
            &&& #[trigger] own_part(nodes, sizes_of(nodes), j) >= 0
            &&& own_part(nodes, files_of(nodes), j) >= 0
            &&& own_part(nodes, dirs_of(nodes), j) >= 0
        }
}

/// Every value of `own` is non-negative.
pub open spec fn all_nonneg(own: Seq<int>) -> bool {
    forall|i: int| #![trigger own[i]] 0 <= i < own.len() ==> own[i] >= 0
}

/// What a node holds part-way through the upward pass of `finalize`: its own value plus
/// the totals of those of its children that are at or after `i`.
pub open spec fn tally(par: Seq<u32>, own: Seq<int>, j: int, i: int) -> int {
    own[j] + below(par, own, j, if i > j + 1 { i } else { j + 1 })
}


/// `s` with every occurrence of `x` taken out, order kept.
pub open spec fn without(s: Seq<u32>, x: u32) -> Seq<u32> {
    s.filter(|c: u32| c != x)
}

/// No value occurs twice in `s`.
pub open spec fn distinct(s: Seq<u32>) -> bool {
    forall|a: int, b: int| #![trigger s[a], s[b]] 0 <= a < b < s.len() ==> s[a] != s[b]
}

/// A copy of `v` without the value `x`.
fn remove_value(v: &Vec<u32>, x: u32) -> (r: Vec<u32>)
    ensures
        r@ == without(v@, x),
        forall|m: int| #![trigger r@[m]] 0 <= m < r@.len() ==> r@[m] != x && v@.contains(r@[m]),
        forall|t: int| #![trigger v@[t]] 0 <= t < v@.len() && v@[t] != x ==> r@.contains(v@[t]),
        distinct(v@) ==> distinct(r@),
{
    let mut r: Vec<u32> = Vec::new();
    let ghost mut idx: Seq<int> = Seq::empty();
    let mut k: usize = 0;
    while k < v.len()
        invariant
            k <= v@.len(),
            r@ == without(v@.take(k as int), x),
            idx.len() == r@.len(),
            forall|m: int| #![trigger idx[m]] 0 <= m < idx.len() ==> 0 <= idx[m] < k,
            forall|m: int| #![trigger r@[m]] 0 <= m < r@.len() ==> r@[m] == v@[idx[m]] && r@[m] != x,
            forall|a: int, b: int| #![trigger idx[a], idx[b]] 0 <= a < b < idx.len() ==> idx[a] < idx[b],
            forall|t: int| #![trigger v@[t]] 0 <= t < k && v@[t] != x ==> r@.contains(v@[t]),
        decreases v@.len() - k,
    {
        let c = v[k];
        let ghost r0 = r@;
        let ghost idx0 = idx;
        if c != x {
            r.push(c);
        }
        proof {
            reveal_with_fuel(Seq::filter, 1);
            assert(v@.take(k + 1).drop_last() =~= v@.take(k as int));
            assert(v@.take(k + 1).last() == c);
            if c != x {
                idx = idx0.push(k as int);
                assert(r@ == r0.push(c));
            } else {
                assert(r@ == r0);
            }
            assert forall|m: int| #![trigger idx[m]] 0 <= m < idx.len() implies 0 <= idx[m] < k + 1 by {
                if m < idx0.len() {
                    assert(idx[m] == idx0[m]);
                }
            }
            assert forall|m: int| #![trigger r@[m]] 0 <= m < r@.len() implies r@[m] == v@[idx[m]] && r@[m] != x by {
                if m < r0.len() {
                    assert(r@[m] == r0[m]);
                    assert(idx[m] == idx0[m]);
                    assert(r0[m] == v@[idx0[m]]);
                }
            }
            assert forall|a: int, b: int| #![trigger idx[a], idx[b]] 0 <= a < b < idx.len() implies idx[a] < idx[b] by {
                if b < idx0.len() {
                    assert(idx[a] == idx0[a] && idx[b] == idx0[b]);
                } else {
                    assert(idx[a] == idx0[a]);
                    assert(idx0[a] < k);
                }
            }
            assert(r@ == without(v@.take(k + 1), x));
            assert forall|t: int| #![trigger v@[t]] 0 <= t < k + 1 && v@[t] != x implies r@.contains(v@[t]) by {
                if t < k {
                    let m = choose|m: int| 0 <= m < r0.len() && r0[m] == v@[t];
                    assert(r@[m] == r0[m]);
                } else {
                    assert(r@[r@.len() - 1] == v@[t]);
                }
            }
        }
        k += 1;
    }
    assert(v@.take(v@.len() as int) =~= v@);
    proof {
        assert forall|m: int| #![trigger r@[m]] 0 <= m < r@.len() implies r@[m] != x && v@.contains(r@[m]) by {
            assert(r@[m] == v@[idx[m]]);
            assert(0 <= idx[m] < v@.len());
        }
        if distinct(v@) {
            assert forall|a: int, b: int| #![trigger r@[a], r@[b]] 0 <= a < b < r@.len() implies r@[a] != r@[b] by {
                assert(r@[a] == v@[idx[a]]);
                assert(r@[b] == v@[idx[b]]);
                assert(0 <= idx[a] < v@.len());
                assert(0 <= idx[b] < v@.len());
                assert(idx[a] < idx[b]);
                assert(v@[idx[a]] != v@[idx[b]]);
            }
        }
    }
    r
}

/// `a` less `b`, rounded up to 0.
pub open spec fn sat_sub(a: u64, b: u64) -> u64 {
    if a >= b { (a - b) as u64 } else { 0 }
}


/// The two nodes agree on name, mtime, parent, depth and kind.
pub open spec fn same_identity(a: Node, b: Node) -> bool {
    &&& a.name == b.name
    &&& a.raw_name == b.raw_name
    &&& a.mtime == b.mtime
    &&& a.parent == b.parent
    &&& a.depth == b.depth
    &&& a.is_dir == b.is_dir
}

/// The two nodes agree on everything but their parent.
pub open spec fn same_but_parent(a: Node, b: Node) -> bool {
    &&& a.name == b.name
    &&& a.raw_name == b.raw_name
    &&& a.size == b.size
    &&& a.mtime == b.mtime
    &&& a.children == b.children
    &&& a.depth == b.depth
    &&& a.is_dir == b.is_dir
    &&& a.files == b.files
    &&& a.dirs == b.dirs
}

/// What `detach(id)` leaves at node `j`, when `id` had a parent `p`: `id` loses its
/// parent; every node from `p` up to the root loses `id`'s size and counts (rounded
/// at 0) and gets its children re-sorted, `p` having dropped `id` from its list; the
/// other nodes stay as they were.
pub open spec fn detach_effect(new: Seq<Node>, old: Seq<Node>, id: int, j: int) -> bool {
    let p = old[id].parent as int;
    if j == id {
        same_but_parent(new[j], old[j]) && new[j].parent == NONE
    } else if reaches(old, p, j) {
        &&& same_identity(new[j], old[j])
        &&& new[j].size == sat_sub(old[j].size, old[id].size)
        &&& new[j].files == sat_sub(old[j].files, old[id].files)
        &&& new[j].dirs == sat_sub(old[j].dirs, old[id].dirs)
        &&& sorted_desc_stable(
            new[j].children@,
            if j == p {
                without(old[j].children@, id as u32)
            } else {
                old[j].children@
            },
            sizes_of(new),
        )
    } else {
        new[j] == old[j]
    }
}


/// From `from` on, apart from `k0`, the same nodes have parent `j`, with the same values.
pub open spec fn agree_except(par1: Seq<u32>, v1: Seq<int>, par2: Seq<u32>, v2: Seq<int>, j: int, from: int, k0: int) -> bool {
    forall|k: int|
        #![trigger par1[k]]
        from <= k < par1.len() && k != k0 ==> (par1[k] as int == j) == (par2[k] as int == j)
            && (par1[k] as int == j ==> v1[k] == v2[k])
}

/// How `detach` changes one column of values: nodes from `id`'s parent up lose `id`'s
/// value (rounded at 0), the others keep theirs.
pub open spec fn detached_values(old: Seq<Node>, id: int, vo: Seq<int>, vn: Seq<int>) -> bool {
    forall|j: int|
        #![trigger vn[j]]
        0 <= j < old.len() ==> vn[j] == if j != id && reaches(old, old[id].parent as int, j) {
            if vo[j] >= vo[id] {
                vo[j] - vo[id]
            } else {
                0
            }
        } else {
            vo[j]
        }
}

/// A node with nothing in it, used as a placeholder while a node is edited.
fn blank_node() -> (n: Node)
    ensures
        n.name@.len() == 0,
        n.raw_name is None,
        n.size == 0,
        n.mtime == 0,
        n.parent == NONE,
        n.children@.len() == 0,
        n.depth == 0,
        !n.is_dir,
        n.files == 0,
        n.dirs == 0,
{
    Node {
        name: String::new(),
        raw_name: None,
        size: 0,
        mtime: 0,
        parent: NONE,
        children: Vec::new(),
        depth: 0,
        is_dir: false,
        files: 0,
        dirs: 0,
    }
}

/// Calls `slice::sort_by_key` with the first component as key; the standard library
/// documents that sort as stable, so the result is `v` stably sorted by that key.
#[verifier::external_body]
fn sort_by_first(v: &mut Vec<(u64, u32)>)
    ensures
        stably_sorted_by_first(final(v)@, old(v)@),
{
    v.sort_by_key(|p| p.0);
}

impl Tree {
    pub open spec fn wf(&self) -> bool {
        nodes_wf(self.nodes@)
    }

    /// Whether `anc` is `id` itself or one of its ancestors; `NONE` has none.
    pub fn is_ancestor_or_self(&self, anc: u32, id: u32) -> (r: bool)
        requires
            self.wf(),
            id == NONE || id < self.nodes@.len(),
        ensures
            r == reaches(self.nodes@, id as int, anc as int),
    {
        let mut cur = id;
        while cur != NONE
            invariant
                self.wf(),
                cur == NONE || cur < self.nodes@.len(),
                reaches(self.nodes@, cur as int, anc as int) == reaches(
                    self.nodes@,
                    id as int,
                    anc as int,
                ),
            decreases (if cur == NONE { 0 } else { cur as int + 1 }),
        {
            if cur == anc {
                return true;
            }
            cur = self.nodes[cur as usize].parent;
        }
        false
    }

    /// The path of node `id`, as raw bytes; `NONE` and the root give the root path.
    pub fn path(&self, id: u32) -> (p: Vec<u8>)
        requires
            self.wf(),
            id == NONE || id < self.nodes@.len(),
        ensures
            p@ == path_of(self.nodes@, self.root_path@, id as int),
    {
        let mut parts: Vec<u32> = Vec::new();
        let mut cur = id;
        while cur != 0 && cur != NONE
            invariant
                self.wf(),
                cur == NONE || cur < self.nodes@.len(),
                parts@.len() > 0 ==> parts@[0] == id,
                parts@.len() == 0 ==> cur == id,
                forall|k: int|
                    #![trigger parts@[k]]
                    0 <= k < parts@.len() ==> {
                        &&& 0 < parts@[k] < self.nodes@.len()
                        &&& self.nodes@[parts@[k] as int].parent == (if k + 1 < parts@.len() {
                            parts@[k + 1]
                        } else {
                            cur
                        })
                    },
            decreases (if cur == NONE { 0 } else { cur as int + 1 }),
        {
            parts.push(cur);
            cur = self.nodes[cur as usize].parent;
        }
        let mut p = copy_bytes(&self.root_path);
        let mut k = parts.len();
        while k > 0
            invariant
                parents_precede(self.nodes@),
                self.nodes@.len() <= NONE,
                k <= parts@.len(),
                cur == 0 || cur == NONE,
                parts@.len() > 0 ==> parts@[0] == id,
                parts@.len() == 0 ==> cur == id,
                forall|j: int|
                    #![trigger parts@[j]]
                    0 <= j < parts@.len() ==> {
                        &&& 0 < parts@[j] < self.nodes@.len()
                        &&& self.nodes@[parts@[j] as int].parent == (if j + 1 < parts@.len() {
                            parts@[j + 1]
                        } else {
                            cur
                        })
                    },
                p@ == path_of(
                    self.nodes@,
                    self.root_path@,
                    (if k == parts@.len() { cur } else { parts@[k as int] }) as int,
                ),
            decreases k,
        {
            k -= 1;
            let nid = parts[k];
            let n = &self.nodes[nid as usize];
            proof {
                let q = self.nodes@[nid as int].parent;
                assert(q == (if k + 1 < parts@.len() { parts@[k + 1] } else { cur }));
                assert(q == NONE || q < nid);
                assert(path_of(self.nodes@, self.root_path@, nid as int) == push_component(
                    path_of(self.nodes@, self.root_path@, q as int),
                    component(self.nodes@[nid as int]),
                ));
            }
            push_component_exec(&mut p, component_bytes(n));
        }
        p
    }

    /// The path of node `id` for display, decoded lossily; folders end with `/`.
    pub fn display_path(&self, id: u32) -> (s: String)
        requires
            self.wf(),
            id < self.nodes@.len(),
        ensures
            s@ == display_of(
                utf8_lossy(path_of(self.nodes@, self.root_path@, id as int)),
                self.nodes@[id as int].is_dir,
            ),
            self.nodes@[id as int].is_dir ==> s@.len() > 0 && s@.last() == '/',
            valid_utf8(path_of(self.nodes@, self.root_path@, id as int)) ==> s@ == display_of(
                decode_utf8(path_of(self.nodes@, self.root_path@, id as int)),
                self.nodes@[id as int].is_dir,
            ),
    {
        let p = self.path(id);
        let mut s = lossy_string(p.as_slice());
        if self.nodes[id as usize].is_dir && !ends_with_slash(&s) {
            push_char(&mut s, '/');
        }
        s
    }



    /// Whether every total that `finalize` would compute fits in a `u64`.
    pub fn totals_fit(&self) -> (r: bool)
        requires
            self.wf(),
            forall|i: int|
                #![trigger self.nodes@[i]]
                1 <= i < self.nodes@.len() ==> self.nodes@[i].parent != NONE,
        ensures
            r == ((forall|i: int|
                0 <= i < self.nodes@.len() ==> #[trigger] subtree_total(
                    parents_of(self.nodes@),
                    sizes_of(self.nodes@),
                    i,
                ) <= u64::MAX) && (forall|i: int|
                0 <= i < self.nodes@.len() ==> #[trigger] subtree_total(
                    parents_of(self.nodes@),
                    files_of(self.nodes@),
                    i,
                ) <= u64::MAX) && (forall|i: int|
                0 <= i < self.nodes@.len() ==> #[trigger] subtree_total(
                    parents_of(self.nodes@),
                    dirs_of(self.nodes@),
                    i,
                ) <= u64::MAX)),
    {
        let ghost nodes = self.nodes@;
        let ghost par = parents_of(nodes);
        let ghost own_s = sizes_of(nodes);
        let ghost own_f = files_of(nodes);
        let ghost own_d = dirs_of(nodes);
        let len = self.nodes.len();
        let mut ss: Vec<u64> = Vec::new();
        let mut fs: Vec<u64> = Vec::new();
        let mut ds: Vec<u64> = Vec::new();
        let mut k: usize = 0;
        while k < len
            invariant
                len == nodes.len(),
                self.nodes@ == nodes,
                k <= len,
                ss@.len() == k,
                fs@.len() == k,
                ds@.len() == k,
                forall|j: int| #![trigger ss@[j]] 0 <= j < k ==> ss@[j] == nodes[j].size,
                forall|j: int| #![trigger fs@[j]] 0 <= j < k ==> fs@[j] == nodes[j].files,
                forall|j: int| #![trigger ds@[j]] 0 <= j < k ==> ds@[j] == nodes[j].dirs,
            decreases len - k,
        {
            ss.push(self.nodes[k].size);
            fs.push(self.nodes[k].files);
            ds.push(self.nodes[k].dirs);
            k += 1;
        }
        assert(all_nonneg(own_s));
        assert(all_nonneg(own_f));
        assert(all_nonneg(own_d));
        let mut i = len;
        while i > 1
            invariant
                len == nodes.len(),
                self.nodes@ == nodes,
                nodes_wf(nodes),
                i <= len,
                len == 0 || i >= 1,
                par == parents_of(nodes),
                own_s == sizes_of(nodes),
                own_f == files_of(nodes),
                own_d == dirs_of(nodes),
                all_nonneg(own_s),
                all_nonneg(own_f),
                all_nonneg(own_d),
                ss@.len() == len,
                fs@.len() == len,
                ds@.len() == len,
                forall|j: int|
                    #![trigger nodes[j]]
                    1 <= j < len ==> nodes[j].parent != NONE,
                forall|j: int|
                    #![trigger ss@[j]]
                    #![trigger fs@[j]]
                    #![trigger ds@[j]]
                    0 <= j < len ==> {
                        &&& ss@[j] == tally(par, own_s, j, i as int)
                        &&& fs@[j] == tally(par, own_f, j, i as int)
                        &&& ds@[j] == tally(par, own_d, j, i as int)
                    },
            decreases i,
        {
            i -= 1;
            let p = self.nodes[i].parent;
            assert(p < i);
            proof {
                assert(par[i as int] == p);
                lemma_below_mono(par, own_s, p as int, p as int + 1, i as int);
                lemma_below_mono(par, own_f, p as int, p as int + 1, i as int);
                lemma_below_mono(par, own_d, p as int, p as int + 1, i as int);
                assert(below(par, own_s, p as int, i as int) == own_s[i as int] + below(par, own_s, i as int, i + 1) + below(par, own_s, p as int, i + 1));
                assert(below(par, own_f, p as int, i as int) == own_f[i as int] + below(par, own_f, i as int, i + 1) + below(par, own_f, p as int, i + 1));
                assert(below(par, own_d, p as int, i as int) == own_d[i as int] + below(par, own_d, i as int, i + 1) + below(par, own_d, p as int, i + 1));
                assert(ss@[i as int] == tally(par, own_s, i as int, i + 1));
                assert(ss@[p as int] == tally(par, own_s, p as int, i + 1));
                assert(fs@[i as int] == tally(par, own_f, i as int, i + 1));
                assert(fs@[p as int] == tally(par, own_f, p as int, i + 1));
                assert(ds@[i as int] == tally(par, own_d, i as int, i + 1));
                assert(ds@[p as int] == tally(par, own_d, p as int, i + 1));
            }
            let a = ss[p as usize].checked_add(ss[i]);
            let b = fs[p as usize].checked_add(fs[i]);
            let c = ds[p as usize].checked_add(ds[i]);
            match (a, b, c) {
                (Some(a), Some(b), Some(c)) => {
                    ss.set(p as usize, a);
                    fs.set(p as usize, b);
                    ds.set(p as usize, c);
                    proof {
                        assert forall|j: int|
                            #![trigger ss@[j]]
                            #![trigger fs@[j]]
                            #![trigger ds@[j]]
                            0 <= j < len implies {
                                &&& ss@[j] == tally(par, own_s, j, i as int)
                                &&& fs@[j] == tally(par, own_f, j, i as int)
                                &&& ds@[j] == tally(par, own_d, j, i as int)
                            } by {
                            if j != p && j < i {
                                assert(par[i as int] as int != j);
                                assert(below(par, own_s, j, i as int) == below(par, own_s, j, i + 1));
                                assert(below(par, own_f, j, i as int) == below(par, own_f, j, i + 1));
                                assert(below(par, own_d, j, i as int) == below(par, own_d, j, i + 1));
                            }
                        }
                    }
                },
                _ => {
                    proof {
                        assert(subtree_total(par, own_s, p as int) >= tally(par, own_s, p as int, i as int));
                        assert(subtree_total(par, own_f, p as int) >= tally(par, own_f, p as int, i as int));
                        assert(subtree_total(par, own_d, p as int) >= tally(par, own_d, p as int, i as int));
                        if a.is_none() {
                            assert(!(subtree_total(par, own_s, p as int) <= u64::MAX));
                        } else if b.is_none() {
                            assert(!(subtree_total(par, own_f, p as int) <= u64::MAX));
                        } else {
                            assert(!(subtree_total(par, own_d, p as int) <= u64::MAX));
                        }
                    }
                    return false;
                },
            }
        }
        proof {
            assert forall|j: int| 0 <= j < len implies #[trigger] subtree_total(par, own_s, j) <= u64::MAX by {
                assert(ss@[j] == tally(par, own_s, j, i as int));
            }
            assert forall|j: int| 0 <= j < len implies #[trigger] subtree_total(par, own_f, j) <= u64::MAX by {
                assert(fs@[j] == tally(par, own_f, j, i as int));
            }
            assert forall|j: int| 0 <= j < len implies #[trigger] subtree_total(par, own_d, j) <= u64::MAX by {
                assert(ds@[j] == tally(par, own_d, j, i as int));
            }
        }
        true
    }

    /// After a scan: adds sizes and file/folder counts up the tree, so that each node
    /// holds the totals of its subtree, then orders every child list largest first.
    pub fn finalize(&mut self)
        requires
            old(self).wf(),
            forall|i: int|
                #![trigger old(self).nodes@[i]]
                1 <= i < old(self).nodes@.len() ==> old(self).nodes@[i].parent != NONE,
            forall|i: int|
                0 <= i < old(self).nodes@.len() ==> #[trigger] subtree_total(
                    parents_of(old(self).nodes@),
                    sizes_of(old(self).nodes@),
                    i,
                ) <= u64::MAX,
            forall|i: int|
                0 <= i < old(self).nodes@.len() ==> #[trigger] subtree_total(
                    parents_of(old(self).nodes@),
                    files_of(old(self).nodes@),
                    i,
                ) <= u64::MAX,
            forall|i: int|
                0 <= i < old(self).nodes@.len() ==> #[trigger] subtree_total(
                    parents_of(old(self).nodes@),
                    dirs_of(old(self).nodes@),
                    i,
                ) <= u64::MAX,
        ensures
            final(self).wf(),
            final(self).root_path == old(self).root_path,
            final(self).fs_total == old(self).fs_total,
            final(self).fs_free == old(self).fs_free,
            final(self).is_mount == old(self).is_mount,
            final(self).nodes@.len() == old(self).nodes@.len(),
            forall|i: int|
                #![trigger final(self).nodes@[i]]
                0 <= i < final(self).nodes@.len() ==> {
                    let n = final(self).nodes@[i];
                    let o = old(self).nodes@[i];
                    &&& n.size == subtree_total(parents_of(old(self).nodes@), sizes_of(old(self).nodes@), i)
                    &&& n.files == subtree_total(parents_of(old(self).nodes@), files_of(old(self).nodes@), i)
                    &&& n.dirs == subtree_total(parents_of(old(self).nodes@), dirs_of(old(self).nodes@), i)
                    &&& n.name == o.name
                    &&& n.raw_name == o.raw_name
                    &&& n.mtime == o.mtime
                    &&& n.parent == o.parent
                    &&& n.depth == o.depth
                    &&& n.is_dir == o.is_dir
                    &&& sorted_desc_stable(n.children@, o.children@, sizes_of(final(self).nodes@))
                },
            forall|j: int|
                #![trigger final(self).nodes@[j]]
                0 <= j < final(self).nodes@.len() ==> {
                    &&& own_part(final(self).nodes@, sizes_of(final(self).nodes@), j) == old(self).nodes@[j].size
                    &&& own_part(final(self).nodes@, files_of(final(self).nodes@), j) == old(self).nodes@[j].files
                    &&& own_part(final(self).nodes@, dirs_of(final(self).nodes@), j) == old(self).nodes@[j].dirs
                },
            counts_consistent(final(self).nodes@),
            children_sorted(final(self).nodes@),
    {
        let ghost old_nodes = self.nodes@;
        let ghost par = parents_of(old_nodes);
        let ghost own_s = sizes_of(old_nodes);
        let ghost own_f = files_of(old_nodes);
        let ghost own_d = dirs_of(old_nodes);
        let len = self.nodes.len();
        let mut i = len;
        while i > 1
            invariant
                len == old_nodes.len(),
                self.nodes@.len() == len,
                i <= len,
                len == 0 || i >= 1,
                nodes_wf(old_nodes),
                nodes_wf(self.nodes@),
                par == parents_of(old_nodes),
                own_s == sizes_of(old_nodes),
                own_f == files_of(old_nodes),
                own_d == dirs_of(old_nodes),
                self.root_path == old(self).root_path,
                self.fs_total == old(self).fs_total,
                self.fs_free == old(self).fs_free,
                self.is_mount == old(self).is_mount,
                forall|j: int|
                    #![trigger old_nodes[j]]
                    1 <= j < len ==> old_nodes[j].parent != NONE,
                forall|j: int| 0 <= j < len ==> #[trigger] subtree_total(par, own_s, j) <= u64::MAX,
                forall|j: int| 0 <= j < len ==> #[trigger] subtree_total(par, own_f, j) <= u64::MAX,
                forall|j: int| 0 <= j < len ==> #[trigger] subtree_total(par, own_d, j) <= u64::MAX,
                forall|j: int|
                    #![trigger self.nodes@[j]]
                    0 <= j < len ==> {
                        let n = self.nodes@[j];
                        let o = old_nodes[j];
                        &&& n.size == tally(par, own_s, j, i as int)
                        &&& n.files == tally(par, own_f, j, i as int)
                        &&& n.dirs == tally(par, own_d, j, i as int)
                        &&& same_but_counts(n, o)
                    },
            decreases i,
        {
            i -= 1;
            let ghost before = self.nodes@;
            let s = self.nodes[i].size;
            let f = self.nodes[i].files;
            let d = self.nodes[i].dirs;
            let p = self.nodes[i].parent;
            assert(old_nodes[i as int].parent == p);
            assert(p < i);
            proof {
                assert(par[i as int] == p);
                assert(all_nonneg(own_s));
                assert(all_nonneg(own_f));
                assert(all_nonneg(own_d));
                lemma_below_mono(par, own_s, p as int, p as int + 1, i as int);
                lemma_below_mono(par, own_f, p as int, p as int + 1, i as int);
                lemma_below_mono(par, own_d, p as int, p as int + 1, i as int);
                assert(subtree_total(par, own_s, p as int) <= u64::MAX);
                assert(subtree_total(par, own_f, p as int) <= u64::MAX);
                assert(subtree_total(par, own_d, p as int) <= u64::MAX);
                assert(below(par, own_s, p as int, i as int) == own_s[i as int] + below(par, own_s, i as int, i + 1) + below(par, own_s, p as int, i + 1));
                assert(below(par, own_f, p as int, i as int) == own_f[i as int] + below(par, own_f, i as int, i + 1) + below(par, own_f, p as int, i + 1));
                assert(below(par, own_d, p as int, i as int) == own_d[i as int] + below(par, own_d, i as int, i + 1) + below(par, own_d, p as int, i + 1));
            }
            let mut node = blank_node();
            self.nodes.set_and_swap(p as usize, &mut node);
            node.size = node.size + s;
            node.files = node.files + f;
            node.dirs = node.dirs + d;
            self.nodes.set_and_swap(p as usize, &mut node);
            proof {
                assert forall|j: int|
                    #![trigger self.nodes@[j]]
                    0 <= j < len implies {
                        let n = self.nodes@[j];
                        let o = old_nodes[j];
                        &&& n.size == tally(par, own_s, j, i as int)
                        &&& n.files == tally(par, own_f, j, i as int)
                        &&& n.dirs == tally(par, own_d, j, i as int)
                        &&& same_but_counts(n, o)
                    } by {
                    if j != p && j < i {
                        assert(par[i as int] as int != j);
                        assert(below(par, own_s, j, i as int) == below(par, own_s, j, i + 1));
                        assert(below(par, own_f, j, i as int) == below(par, own_f, j, i + 1));
                        assert(below(par, own_d, j, i as int) == below(par, own_d, j, i + 1));
                    }
                }
                lemma_same_shape_wf(self.nodes@, old_nodes);
            }
        }
        let ghost mid = self.nodes@;
        proof {
            assert forall|j: int| 0 <= j < len implies #[trigger] mid[j].size == subtree_total(par, own_s, j) by {
                assert(mid[j].size == tally(par, own_s, j, i as int));
            }
        }
        let mut k: usize = 0;
        while k < len
            invariant
                len == old_nodes.len(),
                mid.len() == len,
                self.nodes@.len() == len,
                k <= len,
                nodes_wf(self.nodes@),
                self.root_path == old(self).root_path,
                self.fs_total == old(self).fs_total,
                self.fs_free == old(self).fs_free,
                self.is_mount == old(self).is_mount,
                forall|j: int|
                    #![trigger self.nodes@[j]]
                    0 <= j < len ==> same_but_children(self.nodes@[j], mid[j]),
                forall|j: int| #![trigger self.nodes@[j]] k <= j < len ==> self.nodes@[j] == mid[j],
                forall|j: int|
                    #![trigger self.nodes@[j]]
                    0 <= j < k ==> sorted_desc_stable(
                        self.nodes@[j].children@,
                        mid[j].children@,
                        sizes_of(mid),
                    ),
            decreases len - k,
        {
            let ghost before = self.nodes@;
            assert(sizes_of(before) =~= sizes_of(mid)) by {
                assert forall|j: int| 0 <= j < len implies #[trigger] sizes_of(before)[j] == sizes_of(mid)[j] by {
                    assert(same_but_children(before[j], mid[j]));
                }
            }
            self.sort_children(k as u32);
            k += 1;
        }
        proof {
            assert(sizes_of(self.nodes@) =~= sizes_of(mid)) by {
                assert forall|j: int| 0 <= j < len implies #[trigger] sizes_of(self.nodes@)[j] == sizes_of(mid)[j] by {
                    assert(same_but_children(self.nodes@[j], mid[j]));
                }
            }
            assert forall|j: int| #![trigger self.nodes@[j]] 0 <= j < len implies {
                let n = self.nodes@[j];
                let o = old_nodes[j];
                &&& n.size == subtree_total(par, own_s, j)
                &&& n.files == subtree_total(par, own_f, j)
                &&& n.dirs == subtree_total(par, own_d, j)
            } by {
                assert(same_but_children(self.nodes@[j], mid[j]));
                assert(mid[j].size == tally(par, own_s, j, i as int));
                assert(mid[j].files == tally(par, own_f, j, i as int));
                assert(mid[j].dirs == tally(par, own_d, j, i as int));
            }
            let fin = self.nodes@;
            assert(parents_of(fin) =~= par) by {
                assert forall|j: int| 0 <= j < len implies #[trigger] parents_of(fin)[j] == par[j] by {
                    assert(same_but_children(fin[j], mid[j]));
                    assert(mid[j].parent == old_nodes[j].parent);
                }
            }
            assert forall|j: int| 0 <= j < len implies #[trigger] sizes_of(fin)[j] == subtree_total(par, own_s, j) by {
                assert(fin[j].size == subtree_total(par, own_s, j));
            }
            assert forall|j: int| 0 <= j < len implies #[trigger] files_of(fin)[j] == subtree_total(par, own_f, j) by {
                assert(fin[j].files == subtree_total(par, own_f, j));
            }
            assert forall|j: int| 0 <= j < len implies #[trigger] dirs_of(fin)[j] == subtree_total(par, own_d, j) by {
                assert(fin[j].dirs == subtree_total(par, own_d, j));
            }
            assert forall|j: int| #![trigger fin[j]] 0 <= j < len implies {
                &&& own_part(fin, sizes_of(fin), j) == old_nodes[j].size
                &&& own_part(fin, files_of(fin), j) == old_nodes[j].files
                &&& own_part(fin, dirs_of(fin), j) == old_nodes[j].dirs
            } by {
                lemma_child_sum_of_totals(par, own_s, sizes_of(fin), j, j + 1);
                lemma_child_sum_of_totals(par, own_f, files_of(fin), j, j + 1);
                lemma_child_sum_of_totals(par, own_d, dirs_of(fin), j, j + 1);
                assert(sizes_of(fin)[j] == subtree_total(par, own_s, j));
                assert(files_of(fin)[j] == subtree_total(par, own_f, j));
                assert(dirs_of(fin)[j] == subtree_total(par, own_d, j));
            }
            assert forall|j: int| 0 <= j < len implies {
                &&& #[trigger] own_part(fin, sizes_of(fin), j) >= 0
                &&& own_part(fin, files_of(fin), j) >= 0
                &&& own_part(fin, dirs_of(fin), j) >= 0
            } by {
                assert(fin[j] == fin[j]);
            }
            assert forall|i: int| #![trigger fin[i]] 0 <= i < fin.len() implies sorted_desc_stable(
                fin[i].children@,
                old_nodes[i].children@,
                sizes_of(fin),
            ) by {
                assert(fin[i] == fin[i]);
            }
            lemma_sorted_lists(fin, old_nodes);
        }
    }


    /// Takes node `id` out of the tree (after it was moved to the trash): its parent
    /// forgets it, and every ancestor loses its size and counts and is re-sorted.
    pub fn detach(&mut self, id: u32)
        requires
            old(self).wf(),
            id < old(self).nodes@.len(),
        ensures
            final(self).wf(),
            final(self).root_path == old(self).root_path,
            final(self).fs_total == old(self).fs_total,
            final(self).fs_free == old(self).fs_free,
            final(self).is_mount == old(self).is_mount,
            final(self).nodes@.len() == old(self).nodes@.len(),
            old(self).nodes@[id as int].parent == NONE ==> final(self).nodes@ == old(self).nodes@,
            final(self).nodes@[id as int].parent == NONE,
            forall|j: int| reaches(final(self).nodes@, id as int, j) ==> j == id,
            old(self).nodes@[id as int].parent != NONE ==> forall|j: int|
                #![trigger final(self).nodes@[j]]
                0 <= j < final(self).nodes@.len() ==> detach_effect(
                    final(self).nodes@,
                    old(self).nodes@,
                    id as int,
                    j,
                ),
            children_sorted(old(self).nodes@) ==> children_sorted(final(self).nodes@),
            attached_consistent(old(self).nodes@) ==> attached_consistent(final(self).nodes@),
            attached_consistent(old(self).nodes@) ==> forall|j: int|
                #![trigger final(self).nodes@[j]]
                0 <= j < final(self).nodes@.len() && reaches(final(self).nodes@, j, 0) ==> {
                    &&& own_part(final(self).nodes@, sizes_of(final(self).nodes@), j) == own_part(
                        old(self).nodes@,
                        sizes_of(old(self).nodes@),
                        j,
                    )
                    &&& own_part(final(self).nodes@, files_of(final(self).nodes@), j) == own_part(
                        old(self).nodes@,
                        files_of(old(self).nodes@),
                        j,
                    )
                    &&& own_part(final(self).nodes@, dirs_of(final(self).nodes@), j) == own_part(
                        old(self).nodes@,
                        dirs_of(old(self).nodes@),
                        j,
                    )
                },
            attached_consistent(old(self).nodes@) && old(self).nodes@[id as int].parent != NONE
                && reaches(old(self).nodes@, old(self).nodes@[id as int].parent as int, 0) ==> forall|j: int|
                #![trigger final(self).nodes@[j]]
                0 <= j < final(self).nodes@.len() && j != id && reaches(
                    old(self).nodes@,
                    old(self).nodes@[id as int].parent as int,
                    j,
                ) ==> {
                    &&& final(self).nodes@[j].size == old(self).nodes@[j].size - old(self).nodes@[id as int].size
                    &&& final(self).nodes@[j].files == old(self).nodes@[j].files - old(self).nodes@[id as int].files
                    &&& final(self).nodes@[j].dirs == old(self).nodes@[j].dirs - old(self).nodes@[id as int].dirs
                },
            counts_consistent(old(self).nodes@) && old(self).nodes@[id as int].parent != NONE ==> forall|j: int|
                #![trigger final(self).nodes@[j]]
                0 <= j < final(self).nodes@.len() && j != id && reaches(
                    old(self).nodes@,
                    old(self).nodes@[id as int].parent as int,
                    j,
                ) ==> {
                    &&& final(self).nodes@[j].size == old(self).nodes@[j].size - old(self).nodes@[id as int].size
                    &&& final(self).nodes@[j].files == old(self).nodes@[j].files - old(self).nodes@[id as int].files
                    &&& final(self).nodes@[j].dirs == old(self).nodes@[j].dirs - old(self).nodes@[id as int].dirs
                },
            counts_consistent(old(self).nodes@) ==> counts_consistent(final(self).nodes@),
            counts_consistent(old(self).nodes@) ==> forall|j: int|
                #![trigger final(self).nodes@[j]]
                0 <= j < final(self).nodes@.len() ==> {
                    &&& own_part(final(self).nodes@, sizes_of(final(self).nodes@), j) == own_part(
                        old(self).nodes@,
                        sizes_of(old(self).nodes@),
                        j,
                    )
                    &&& own_part(final(self).nodes@, files_of(final(self).nodes@), j) == own_part(
                        old(self).nodes@,
                        files_of(old(self).nodes@),
                        j,
                    )
                    &&& own_part(final(self).nodes@, dirs_of(final(self).nodes@), j) == own_part(
                        old(self).nodes@,
                        dirs_of(old(self).nodes@),
                        j,
                    )
                },
    {
        let ghost old_nodes = self.nodes@;
        let s = self.nodes[id as usize].size;
        let f = self.nodes[id as usize].files;
        let d = self.nodes[id as usize].dirs;
        let parent = self.nodes[id as usize].parent;
        if parent == NONE {
            return;
        }
        assert(parent < id);
        let mut pn = blank_node();
        self.nodes.set_and_swap(parent as usize, &mut pn);
        let kept = remove_value(&pn.children, id);
        proof {
            assert(distinct(pn.children@)) by {
                assert forall|a: int, b: int| #![trigger pn.children@[a], pn.children@[b]] 0 <= a < b < pn.children@.len() implies pn.children@[a] != pn.children@[b] by {
                    assert(old_nodes[parent as int].children@[a] != old_nodes[parent as int].children@[b]);
                }
            }
        }
        pn.children = kept;
        self.nodes.set_and_swap(parent as usize, &mut pn);
        let mut idn = blank_node();
        self.nodes.set_and_swap(id as usize, &mut idn);
        idn.parent = NONE;
        self.nodes.set_and_swap(id as usize, &mut idn);
        proof {
            lemma_unlink_wf(old_nodes, id as int, self.nodes@[parent as int], self.nodes@[id as int]);
            assert(self.nodes@ == old_nodes.update(parent as int, self.nodes@[parent as int]).update(id as int, self.nodes@[id as int]));
        }
        let mut cur = parent;
        while cur != NONE
            invariant
                nodes_wf(old_nodes),
                nodes_wf(self.nodes@),
                self.nodes@.len() == old_nodes.len(),
                id < old_nodes.len(),
                parent == old_nodes[id as int].parent,
                parent < id,
                s == old_nodes[id as int].size,
                f == old_nodes[id as int].files,
                d == old_nodes[id as int].dirs,
                self.root_path == old(self).root_path,
                self.fs_total == old(self).fs_total,
                self.fs_free == old(self).fs_free,
                self.is_mount == old(self).is_mount,
                cur == NONE || (cur < old_nodes.len() && reaches(old_nodes, parent as int, cur as int)),
                forall|j: int|
                    #![trigger self.nodes@[j]]
                    0 <= j < old_nodes.len() ==> {
                        let n = self.nodes@[j];
                        let o = old_nodes[j];
                        if j == id {
                            same_but_parent(n, o) && n.parent == NONE
                        } else if reaches(old_nodes, parent as int, j) && !(cur != NONE && reaches(old_nodes, cur as int, j)) {
                            &&& same_identity(n, o)
                            &&& n.size == sat_sub(o.size, s)
                            &&& n.files == sat_sub(o.files, f)
                            &&& n.dirs == sat_sub(o.dirs, d)
                            &&& sorted_desc_stable(
                                n.children@,
                                if j == parent {
                                    without(o.children@, id)
                                } else {
                                    o.children@
                                },
                                sizes_of(self.nodes@),
                            )
                        } else if j == parent {
                            same_but_children(n, o) && n.children@ == without(o.children@, id)
                        } else {
                            n == o
                        }
                    },
            decreases (if cur == NONE { 0 } else { cur as int + 1 }),
        {
            let ghost before = self.nodes@;
            proof {
                lemma_reaches_le(old_nodes, parent as int, cur as int);
                assert(reaches(old_nodes, cur as int, cur as int));
                let bn = self.nodes@[cur as int];
                assert(bn.parent == old_nodes[cur as int].parent);
            }
            let mut n = blank_node();
            self.nodes.set_and_swap(cur as usize, &mut n);
            n.size = n.size.saturating_sub(s);
            n.files = n.files.saturating_sub(f);
            n.dirs = n.dirs.saturating_sub(d);
            let next = n.parent;
            self.nodes.set_and_swap(cur as usize, &mut n);
            proof {
                lemma_same_shape_wf(self.nodes@, before);
            }
            let ghost mid = self.nodes@;
            self.sort_children(cur);
            proof {
                let c = cur as int;
                assert(next == old_nodes[c].parent);
                assert(next == NONE || next < cur);
                if next != NONE {
                    assert(reaches(old_nodes, next as int, next as int));
                    lemma_reaches_trans(old_nodes, parent as int, c, next as int);
                }
                assert(sizes_of(self.nodes@) =~= sizes_of(mid));
                assert forall|j: int|
                    #![trigger self.nodes@[j]]
                    0 <= j < old_nodes.len() implies {
                        let n = self.nodes@[j];
                        let o = old_nodes[j];
                        if j == id {
                            same_but_parent(n, o) && n.parent == NONE
                        } else if reaches(old_nodes, parent as int, j) && !(next != NONE && reaches(old_nodes, next as int, j)) {
                            &&& same_identity(n, o)
                            &&& n.size == sat_sub(o.size, s)
                            &&& n.files == sat_sub(o.files, f)
                            &&& n.dirs == sat_sub(o.dirs, d)
                            &&& sorted_desc_stable(
                                n.children@,
                                if j == parent {
                                    without(o.children@, id)
                                } else {
                                    o.children@
                                },
                                sizes_of(self.nodes@),
                            )
                        } else if j == parent {
                            same_but_children(n, o) && n.children@ == without(o.children@, id)
                        } else {
                            n == o
                        }
                    } by {
                    assert(reaches(old_nodes, c, j) == (j == c || (next != NONE && reaches(old_nodes, next as int, j))));
                    if j == id {
                        if reaches(old_nodes, c, j) {
                            lemma_reaches_le(old_nodes, c, j);
                        }
                        assert(before[j] == self.nodes@[j]);
                    } else if j == c {
                        if next != NONE && reaches(old_nodes, next as int, j) {
                            lemma_reaches_le(old_nodes, next as int, j);
                        }
                    } else if reaches(old_nodes, parent as int, j) && !reaches(old_nodes, c, j) {
                        lemma_reaches_chain(old_nodes, parent as int, c, j);
                        lemma_reaches_le(old_nodes, j, c);
                        assert(self.nodes@[j] == before[j]);
                        let ch = before[j].children@;
                        assert forall|k: int| #![trigger ch[k]] 0 <= k < ch.len() implies sizes_of(before)[ch[k] as int] == sizes_of(self.nodes@)[ch[k] as int] by {
                            assert(before[ch[k] as int].parent == j);
                            assert(ch[k] as int != c);
                            assert(self.nodes@[ch[k] as int] == mid[ch[k] as int]);
                        }
                        lemma_sorted_same_sizes(ch, if j == parent {
                            without(old_nodes[j].children@, id)
                        } else {
                            old_nodes[j].children@
                        }, sizes_of(before), sizes_of(self.nodes@));
                    } else {
                        if next != NONE && reaches(old_nodes, next as int, j) {
                            lemma_reaches_le(old_nodes, next as int, j);
                        }
                        assert(self.nodes@[j] == before[j]);
                    }
                }
            }
            cur = next;
        }
        proof {
            let fin = self.nodes@;
            assert forall|j: int| #![trigger fin[j]] 0 <= j < fin.len() implies detach_effect(fin, old_nodes, id as int, j) by {
                assert(fin[j] == fin[j]);
            }
            lemma_detach_laws(old_nodes, fin, id as int);
            assert forall|j: int| reaches(fin, id as int, j) implies j == id by {
                assert(detach_effect(fin, old_nodes, id as int, id as int));
            }
        }
    }

    /// Orders the children of `id` by size, largest first; equal sizes keep their order.
    fn sort_children(&mut self, id: u32)
        requires
            old(self).wf(),
            id < old(self).nodes@.len(),
        ensures
            final(self).wf(),
            final(self).root_path == old(self).root_path,
            final(self).fs_total == old(self).fs_total,
            final(self).fs_free == old(self).fs_free,
            final(self).is_mount == old(self).is_mount,
            final(self).nodes@.len() == old(self).nodes@.len(),
            forall|j: int|
                0 <= j < old(self).nodes@.len() && j != id ==> final(self).nodes@[j] == old(
                    self,
                ).nodes@[j],
            same_but_children(final(self).nodes@[id as int], old(self).nodes@[id as int]),
            sorted_desc_stable(
                final(self).nodes@[id as int].children@,
                old(self).nodes@[id as int].children@,
                sizes_of(old(self).nodes@),
            ),
    {
        let ghost old_nodes = self.nodes@;
        let n = self.nodes[id as usize].children.len();
        let mut keys: Vec<(u64, u32)> = Vec::new();
        let mut k: usize = 0;
        while k < n
            invariant
                self.nodes@ == old_nodes,
                nodes_wf(old_nodes),
                id < old_nodes.len(),
                n == old_nodes[id as int].children@.len(),
                k <= n,
                keys@.len() == k,
                forall|m: int|
                    #![trigger keys@[m]]
                    0 <= m < k ==> {
                        let c = old_nodes[id as int].children@[m];
                        keys@[m] == ((18446744073709551615u64 - old_nodes[c as int].size) as u64, c)
                    },
            decreases n - k,
        {
            let c = self.nodes[id as usize].children[k];
            assert(old_nodes[id as int].children@[k as int] == c);
            let sz = self.nodes[c as usize].size;
            keys.push((18446744073709551615u64 - sz, c));
            k += 1;
        }
        let ghost old_keys = keys@;
        sort_by_first(&mut keys);
        let ghost perm = choose|perm: Seq<int>|
            {
                &&& is_reordering(perm, old_keys.len() as int)
                &&& keys@.len() == old_keys.len()
                &&& forall|i: int| #![trigger keys@[i]] 0 <= i < keys@.len() ==> keys@[i] == old_keys[perm[i]]
                &&& forall|i: int, j: int|
                    #![trigger keys@[i], keys@[j]]
                    0 <= i < j < keys@.len() ==> keys@[i].0 < keys@[j].0 || (keys@[i].0 == keys@[j].0
                        && perm[i] < perm[j])
            };
        let mut sorted: Vec<u32> = Vec::new();
        let mut k: usize = 0;
        while k < n
            invariant
                keys@.len() == n,
                k <= n,
                sorted@.len() == k,
                forall|m: int| #![trigger sorted@[m]] 0 <= m < k ==> sorted@[m] == keys@[m].1,
            decreases n - k,
        {
            sorted.push(keys[k].1);
            k += 1;
        }
        let ghost old_ch = old_nodes[id as int].children@;
        let ghost sizes = sizes_of(old_nodes);
        assert forall|i: int| #![trigger sorted@[i]] 0 <= i < sorted@.len() implies sorted@[i] == old_ch[perm[i]] by {
            assert(keys@[i] == old_keys[perm[i]]);
        }
        assert forall|i: int, j: int|
            #![trigger sorted@[i], sorted@[j]]
            0 <= i < j < sorted@.len() implies sizes[sorted@[i] as int] > sizes[sorted@[j] as int] || (
            sizes[sorted@[i] as int] == sizes[sorted@[j] as int] && perm[i] < perm[j]) by {
            assert(keys@[i] == old_keys[perm[i]]);
            assert(keys@[j] == old_keys[perm[j]]);
            assert(old_keys[perm[i]].1 == old_ch[perm[i]]);
            assert(old_keys[perm[j]].1 == old_ch[perm[j]]);
            assert(keys@[i].0 < keys@[j].0 || (keys@[i].0 == keys@[j].0 && perm[i] < perm[j]));
        }
        assert(reorders_desc(sorted@, old_ch, sizes, perm));
        let mut node = blank_node();
        self.nodes.set_and_swap(id as usize, &mut node);
        node.children = sorted;
        self.nodes.set_and_swap(id as usize, &mut node);
        proof {
            lemma_reorder_children_wf(old_nodes, id as int, self.nodes@[id as int], perm);
            assert(self.nodes@ == old_nodes.update(id as int, self.nodes@[id as int]));
        }
    }
}

} // verus!
