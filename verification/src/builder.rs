use vstd::prelude::*;
use std::collections::HashSet;
use crate::tree::{Node, Tree, NONE, nodes_wf};

verus! {

/// The bookkeeping of a directory scan: the nodes found so far, and the hard links
/// already counted.
pub struct TreeBuilder {
    pub nodes: Vec<Node>,
    /// Device of the scan root; with `one_fs`, folders on other devices are not entered.
    pub root_dev: u64,
    pub one_fs: bool,
    /// Device and inode of each multiply-linked file seen, as `link_key`.
    pub seen_links: HashSet<u128>,
}

/// What the scan learns from adding one directory entry.
pub struct Added {
    /// The new node's id.
    pub id: u32,
    /// The size recorded for it: 0 for a hard link seen before.
    pub size: u64,
    /// Whether the scan goes on into it.
    pub descend: bool,
}

/// One number for a (device, inode) pair.
pub open spec fn link_key(dev: u64, ino: u64) -> u128 {
    (dev as int * 0x10000000000000000 + ino as int) as u128
}

/// The key of a (device, inode) pair tells them both: different files never share one, so
/// one file's hard links never hide another's size.
pub proof fn lemma_link_key_injective(d1: u64, i1: u64, d2: u64, i2: u64)
    ensures
        link_key(d1, i1) == link_key(d2, i2) ==> d1 == d2 && i1 == i2,
{
    let m: int = 0x10000000000000000;
    let a = d1 as int * m + i1 as int;
    let b = d2 as int * m + i2 as int;
    assert(0 <= a < 0x100000000000000000000000000000000) by (nonlinear_arith)
        requires
            a == d1 as int * m + i1 as int,
            m == 0x10000000000000000,
            0 <= d1 < m,
            0 <= i1 < m,
    ;
    assert(0 <= b < 0x100000000000000000000000000000000) by (nonlinear_arith)
        requires
            b == d2 as int * m + i2 as int,
            m == 0x10000000000000000,
            0 <= d2 < m,
            0 <= i2 < m,
    ;
    if a == b {
        assert(d1 == d2 && i1 == i2) by (nonlinear_arith)
            requires
                d1 as int * m + i1 as int == d2 as int * m + i2 as int,
                m == 0x10000000000000000,
                0 <= i1 < m,
                0 <= i2 < m,
                0 <= d1,
                0 <= d2,
        ;
    }
}

/// `n` is a fresh node, as a scan records it: no children yet, and counting itself as
/// one file or one folder.
pub open spec fn is_scanned_node(
    n: Node,
    name: String,
    raw_name: Option<Vec<u8>>,
    size: u64,
    mtime: i64,
    parent: u32,
    depth: u16,
    is_dir: bool,
) -> bool {
    &&& n.name == name
    &&& n.raw_name == raw_name
    &&& n.size == size
    &&& n.mtime == mtime
    &&& n.parent == parent
    &&& n.children@.len() == 0
    &&& n.depth == depth
    &&& n.is_dir == is_dir
    &&& n.files == (if is_dir { 0u64 } else { 1u64 })
    &&& n.dirs == (if is_dir { 1u64 } else { 0u64 })
}

impl TreeBuilder {
    /// The nodes form a tree below node 0, every other node attached to a parent one
    /// level above it.
    pub open spec fn wf(&self) -> bool {
        &&& nodes_wf(self.nodes@)
        &&& self.nodes@.len() >= 1
        &&& self.nodes@[0].depth == 0
        &&& forall|i: int|
            #![trigger self.nodes@[i]]
            1 <= i < self.nodes@.len() ==> self.nodes@[i].parent != NONE && self.nodes@[i].depth
                == self.nodes@[self.nodes@[i].parent as int].depth + 1
    }

    /// A scan holding only its root, which counts itself as one file or one folder.
    pub fn new(
        name: String,
        raw_name: Option<Vec<u8>>,
        size: u64,
        mtime: i64,
        is_dir: bool,
        root_dev: u64,
        one_fs: bool,
    ) -> (b: TreeBuilder)
        ensures
            b.wf(),
            b.nodes@.len() == 1,
            b.nodes@[0].name == name,
            b.nodes@[0].raw_name == raw_name,
            b.nodes@[0].size == size,
            b.nodes@[0].mtime == mtime,
            b.nodes@[0].parent == NONE,
            b.nodes@[0].children@.len() == 0,
            b.nodes@[0].depth == 0,
            b.nodes@[0].is_dir == is_dir,
            b.nodes@[0].files == (if is_dir { 0u64 } else { 1u64 }),
            b.nodes@[0].dirs == (if is_dir { 1u64 } else { 0u64 }),
            b.root_dev == root_dev,
            b.one_fs == one_fs,
            b.seen_links@ == Set::<u128>::empty(),
    {
        let mut nodes: Vec<Node> = Vec::new();
        nodes.push(
            Node {
                name,
                raw_name,
                size,
                mtime,
                parent: NONE,
                children: Vec::new(),
                depth: 0,
                is_dir,
                files: if is_dir { 0 } else { 1 },
                dirs: if is_dir { 1 } else { 0 },
            },
        );
        TreeBuilder { nodes, root_dev, one_fs, seen_links: HashSet::new() }
    }

    /// Records one entry of folder `parent`. A file with several hard links counts its
    /// size only the first time its (device, inode) is seen; a folder is entered unless
    /// `one_fs` holds and it lies on another device than the root.
    pub fn add_entry(
        &mut self,
        parent: u32,
        name: String,
        raw_name: Option<Vec<u8>>,
        size: u64,
        mtime: i64,
        is_dir: bool,
        nlink: u64,
        dev: u64,
        ino: u64,
    ) -> (r: Added)
        requires
            old(self).wf(),
            parent < old(self).nodes@.len(),
            old(self).nodes@.len() < NONE,
            old(self).nodes@[parent as int].depth < 65535,
        ensures
            final(self).wf(),
            final(self).root_dev == old(self).root_dev,
            final(self).one_fs == old(self).one_fs,
            r.id == old(self).nodes@.len(),
            r.size == (if !is_dir && nlink > 1 && old(self).seen_links@.contains(link_key(dev, ino)) {
                0
            } else {
                size
            }),
            r.descend == (is_dir && !(old(self).one_fs && dev != old(self).root_dev)),
            final(self).nodes@[r.id as int].size == r.size,
            final(self).nodes@[r.id as int].size == (if !is_dir && nlink > 1 && old(self).seen_links@.contains(
                link_key(dev, ino),
            ) {
                0
            } else {
                size
            }),
            final(self).seen_links@ == (if !is_dir && nlink > 1 {
                old(self).seen_links@.insert(link_key(dev, ino))
            } else {
                old(self).seen_links@
            }),
            final(self).nodes@.len() == old(self).nodes@.len() + 1,
            forall|j: int|
                #![trigger final(self).nodes@[j]]
                0 <= j < old(self).nodes@.len() && j != parent ==> final(self).nodes@[j] == old(
                    self,
                ).nodes@[j],
            crate::tree::same_but_children(
                final(self).nodes@[parent as int],
                old(self).nodes@[parent as int],
            ),
            final(self).nodes@[parent as int].children@ == old(self).nodes@[parent as int].children@.push(
                r.id,
            ),
            is_scanned_node(
                final(self).nodes@[r.id as int],
                name,
                raw_name,
                r.size,
                mtime,
                parent,
                (old(self).nodes@[parent as int].depth + 1) as u16,
                is_dir,
            ),
    {
        let ghost old_nodes = self.nodes@;
        let mut counted = size;
        if !is_dir && nlink > 1 {
            let key: u128 = dev as u128 * 0x10000000000000000u128 + ino as u128;
            assert(key == link_key(dev, ino));
            if !self.seen_links.insert(key) {
                counted = 0;
            }
        }
        let child = self.nodes.len() as u32;
        let depth = self.nodes[parent as usize].depth;
        self.nodes.push(
            Node {
                name,
                raw_name,
                size: counted,
                mtime,
                parent,
                children: Vec::new(),
                depth: depth + 1,
                is_dir,
                files: if is_dir { 0 } else { 1 },
                dirs: if is_dir { 1 } else { 0 },
            },
        );
        let ghost pushed = self.nodes@;
        let mut pn = Node {
            name: String::new(),
            raw_name: None,
            size: 0,
            mtime: 0,
            parent: NONE,
            children: Vec::new(),
            depth: 0,
            is_dir: false,
            files: 0,
            dirs: 0,
        };
        self.nodes.set_and_swap(parent as usize, &mut pn);
        pn.children.push(child);
        self.nodes.set_and_swap(parent as usize, &mut pn);
        proof {
            let new = self.nodes@;
            assert(new == pushed.update(parent as int, new[parent as int]));
            assert forall|q: int, k: int|
                0 <= q < new.len() && 0 <= k < new[q].children@.len() implies {
                    &&& new[q].children@[k] < new.len()
                    &&& new[new[q].children@[k] as int].parent == q
                } by {
                if q == parent && k == new[q].children@.len() - 1 {
                } else if q == child {
                } else {
                    assert(new[q].children@[k] == old_nodes[q].children@[k]);
                }
            }
            assert forall|q: int, k1: int, k2: int|
                0 <= q < new.len() && 0 <= k1 < k2 < new[q].children@.len() implies new[q].children@[k1]
                    != new[q].children@[k2] by {
                if q == parent {
                    if k2 == new[q].children@.len() - 1 {
                        assert(old_nodes[q].children@[k1] < old_nodes.len());
                    } else {
                        assert(old_nodes[q].children@[k1] != old_nodes[q].children@[k2]);
                    }
                } else if q != child {
                    assert(old_nodes[q].children@[k1] != old_nodes[q].children@[k2]);
                }
            }
            assert forall|c: int|
                0 <= c < new.len() && new[c].parent != NONE implies new[new[c].parent as int].children@.contains(
                    c as u32,
                ) by {
                if c == child {
                    assert(new[parent as int].children@[new[parent as int].children@.len() - 1] == child);
                } else {
                    let q = old_nodes[c].parent as int;
                    assert(old_nodes[q].children@.contains(c as u32));
                    let t = choose|t: int| 0 <= t < old_nodes[q].children@.len() && old_nodes[q].children@[t] == c as u32;
                    assert(new[q].children@[t] == c as u32);
                }
            }
            assert(nodes_wf(new));
            assert forall|i: int|
                #![trigger new[i]]
                1 <= i < new.len() implies new[i].parent != NONE && new[i].depth == new[new[i].parent as int].depth + 1 by {
                if i != child && i != parent {
                    assert(new[i] == old_nodes[i]);
                    assert(new[new[i].parent as int].depth == old_nodes[old_nodes[i].parent as int].depth);
                } else if i == parent {
                    assert(new[new[i].parent as int].depth == old_nodes[old_nodes[i].parent as int].depth);
                }
            }
        }
        Added { id: child, size: counted, descend: is_dir && !(self.one_fs && dev != self.root_dev) }
    }

    /// The finished scan as a tree (its counts not yet added up).
    pub fn into_tree(self, root_path: Vec<u8>, fs_total: u64, fs_free: u64, is_mount: bool) -> (t: Tree)
        requires
            self.wf(),
        ensures
            t.wf(),
            t.nodes@ == self.nodes@,
            t.root_path@ == root_path@,
            t.fs_total == fs_total,
            t.fs_free == fs_free,
            t.is_mount == is_mount,
            forall|i: int| #![trigger t.nodes@[i]] 1 <= i < t.nodes@.len() ==> t.nodes@[i].parent != NONE,
    {
        Tree { nodes: self.nodes, root_path, fs_total, fs_free, is_mount }
    }
}

} // verus!
