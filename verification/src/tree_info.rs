//! What a node tells its prospective children about the tree it belongs to.
use std::cmp::Ordering;
use vstd::prelude::*;

use crate::tree_color::TreeColor;
use crate::tree_id::{id_lt, TreeId};

verus! {

/// A node's tree, its depth in it, the tree's colour and the node's reset count-down.
#[derive(Debug, Clone, Copy, PartialEq, Eq, Structural)]
pub struct TreeInfo {
    pub tree_id: TreeId,
    pub depth: usize,
    pub color: TreeColor,
    pub reset_countdown: usize,
}

/// The strict order in which offers of a tree are preferred: a larger tree id
/// first, and within one tree a smaller depth. Colour and count-down play no
/// part.
pub open spec fn info_lt(a: TreeInfo, b: TreeInfo) -> bool {
    id_lt(a.tree_id, b.tree_id) || (a.tree_id == b.tree_id && a.depth > b.depth)
}

/// Two offers that neither is preferred to the other: same tree, same depth.
pub open spec fn info_tied(a: TreeInfo, b: TreeInfo) -> bool {
    a.tree_id == b.tree_id && a.depth == b.depth
}

/// The three-way comparison that the preference order induces.
pub open spec fn info_ordering(a: TreeInfo, b: TreeInfo) -> Ordering {
    if info_lt(a, b) {
        Ordering::Less
    } else if info_tied(a, b) {
        Ordering::Equal
    } else {
        Ordering::Greater
    }
}

/// The preference order is a strict weak order: irreflexive, transitive,
/// and two offers are related one way unless tied.
pub proof fn lemma_info_order_is_weak(a: TreeInfo, b: TreeInfo, c: TreeInfo)
    ensures
        !info_lt(a, a),
        info_lt(a, b) && info_lt(b, c) ==> info_lt(a, c),
        info_lt(a, b) ==> !info_lt(b, a),
        !info_tied(a, b) ==> info_lt(a, b) || info_lt(b, a),
        info_tied(a, b) ==> !info_lt(a, b) && !info_lt(b, a),
{
}

impl TreeInfo {
    /// Compares by tree id, then by depth reversed.
    pub fn cmp(&self, other: &Self) -> (r: Ordering)
        ensures
            r == info_ordering(*self, *other),
    {
        match self.tree_id.cmp(&other.tree_id) {
            Ordering::Less => Ordering::Less,
            Ordering::Greater => Ordering::Greater,
            Ordering::Equal => {
                if self.depth > other.depth {
                    Ordering::Less
                } else if self.depth < other.depth {
                    Ordering::Greater
                } else {
                    Ordering::Equal
                }
            },
        }
    }
}

/// Offers compare by tree id, then by depth reversed (see `TreeInfo::cmp`);
/// offers of the same tree at the same depth compare equal whatever their
/// colour and count-down.
impl PartialOrd for TreeInfo {
    fn partial_cmp(&self, other: &Self) -> (r: Option<Ordering>) {
        Some(self.cmp(other))
    }
}

impl vstd::std_specs::cmp::PartialOrdSpecImpl for TreeInfo {
    open spec fn obeys_partial_cmp_spec() -> bool {
        true
    }

    open spec fn partial_cmp_spec(&self, other: &Self) -> Option<Ordering> {
        Some(info_ordering(*self, *other))
    }
}

} // verus!
