use vstd::prelude::*;
use crate::tree::{Tree, NONE, reaches};

verus! {

/// The colour of a box, by the depth of its node below the scan root: eight colours in
/// turn, depths 0 and 1 sharing the first.
pub fn palette_index(depth: u16) -> (i: usize)
    ensures
        i == (if depth == 0 { 0 } else { (depth - 1) % 8 }),
        i < 8,
{
    let d = if depth == 0 { 1 } else { depth };
    ((d - 1) % 8) as usize
}

/// The light edge shade of a colour channel: three quarters of the way to white.
pub fn lighten(c: u8) -> (r: u8)
    ensures
        r == c + (255 - c) * 3 / 4,
{
    (c as u16 + (255 - c as u16) * 3 / 4) as u8
}

/// The dark edge shade of a colour channel: three quarters of it.
pub fn darken(c: u8) -> (r: u8)
    ensures
        r == c * 3 / 4,
{
    (c as u16 * 3 / 4) as u8
}

/// The children of `dir` that take up space, in their order: the ones the map draws.
pub fn sized_children(tree: &Tree, dir: u32) -> (r: Vec<u32>)
    requires
        tree.wf(),
        dir < tree.nodes@.len(),
    ensures
        r@ == tree.nodes@[dir as int].children@.filter(|c: u32| tree.nodes@[c as int].size > 0),
{
    let ghost ch = tree.nodes@[dir as int].children@;
    let ghost keep = |c: u32| tree.nodes@[c as int].size > 0;
    let mut out: Vec<u32> = Vec::new();
    let n = tree.nodes[dir as usize].children.len();
    let mut k: usize = 0;
    while k < n
        invariant
            tree.wf(),
            dir < tree.nodes@.len(),
            ch == tree.nodes@[dir as int].children@,
            keep == (|c: u32| tree.nodes@[c as int].size > 0),
            n == ch.len(),
            k <= n,
            out@ == ch.subrange(0, k as int).filter(keep),
        decreases n - k,
    {
        let c = tree.nodes[dir as usize].children[k];
        proof {
            reveal_with_fuel(Seq::filter, 1);
            assert(ch.subrange(0, k + 1).drop_last() =~= ch.subrange(0, k as int));
            assert(ch.subrange(0, k + 1).last() == c);
            assert(c < tree.nodes@.len());
        }
        if tree.nodes[c as usize].size > 0 {
            out.push(c);
        }
        k += 1;
    }
    assert(ch.subrange(0, n as int) =~= ch);
    out
}

/// The folder that "zoom in" goes to: the selection if it is a folder, else the folder
/// that holds it; nothing when nothing is selected, when that is the root's parent or
/// the folder in view, or when it is empty.
pub fn zoom_in_target(tree: &Tree, view: u32, selected: u32) -> (r: Option<u32>)
    requires
        tree.wf(),
        selected == NONE || selected < tree.nodes@.len(),
    ensures
        r == (if selected == NONE {
            None
        } else {
            let n = tree.nodes@[selected as int];
            let target = if n.is_dir { selected } else { n.parent };
            if target == NONE || target == view || tree.nodes@[target as int].children@.len() == 0 {
                None
            } else {
                Some(target)
            }
        }),
{
    if selected == NONE {
        return None;
    }
    let n = &tree.nodes[selected as usize];
    let target = if n.is_dir { selected } else { n.parent };
    if target == NONE || target == view || tree.nodes[target as usize].children.len() == 0 {
        return None;
    }
    Some(target)
}

/// How the view moves to a new folder.
#[derive(PartialEq, Eq, Structural, Clone, Copy)]
pub enum ZoomMove {
    /// Nothing to do: the target is the folder in view, or no folder.
    Stay,
    /// Show the target at once.
    Jump,
    /// Animate growing the target's box out of the current map.
    ZoomIn,
    /// Animate shrinking the current map into its box inside the target's.
    ZoomOut,
}

/// How to go from folder `view` to folder `target`: animated when asked and one holds
/// the other.
pub fn zoom_move(tree: &Tree, view: u32, target: u32, animated: bool) -> (m: ZoomMove)
    requires
        tree.wf(),
        view < tree.nodes@.len(),
        target == NONE || target < tree.nodes@.len(),
    ensures
        m == (if target == view || target == NONE {
            ZoomMove::Stay
        } else if !animated {
            ZoomMove::Jump
        } else if reaches(tree.nodes@, target as int, view as int) {
            ZoomMove::ZoomIn
        } else if reaches(tree.nodes@, view as int, target as int) {
            ZoomMove::ZoomOut
        } else {
            ZoomMove::Jump
        }),
{
    if target == view || target == NONE {
        ZoomMove::Stay
    } else if !animated {
        ZoomMove::Jump
    } else if tree.is_ancestor_or_self(view, target) {
        ZoomMove::ZoomIn
    } else if tree.is_ancestor_or_self(target, view) {
        ZoomMove::ZoomOut
    } else {
        ZoomMove::Jump
    }
}

/// The selection after node `id` went to the trash: cleared when it was `id` or inside it.
pub fn selection_after_delete(tree: &Tree, id: u32, selected: u32) -> (s: u32)
    requires
        tree.wf(),
        selected == NONE || selected < tree.nodes@.len(),
    ensures
        s == (if reaches(tree.nodes@, selected as int, id as int) || selected == id {
            NONE
        } else {
            selected
        }),
{
    if tree.is_ancestor_or_self(id, selected) || selected == id {
        NONE
    } else {
        selected
    }
}

/// Whether a double click on `id` zooms into it: only non-empty folders.
pub fn opens_on_double_click(tree: &Tree, id: u32) -> (b: bool)
    requires
        id == NONE || id < tree.nodes@.len(),
    ensures
        b == (id != NONE && tree.nodes@[id as int].is_dir && tree.nodes@[id as int].children@.len() > 0),
{
    if id == NONE {
        return false;
    }
    let n = &tree.nodes[id as usize];
    n.is_dir && n.children.len() > 0
}

} // verus!
