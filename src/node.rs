use vstd::prelude::*;
use crate::geometry::Size;
use crate::style::Style;

verus! {

/// A handle to a node: the index of its slot and the generation of the slot
/// when the node was made, so that a handle to a removed node stays invalid
/// after its slot is reused.
#[derive(Clone, Copy, Debug, PartialEq, Eq, Structural)]
pub struct NodeId {
    pub index: usize,
    pub generation: u64,
}

/// Where a node was put by its parent, relative to the parent's content box,
/// and its size.
#[derive(Clone, Copy, Debug, PartialEq, Eq, Structural)]
pub struct Layout {
    pub x: u32,
    pub y: u32,
    pub size: Size<u32>,
}

/// What can go wrong in a tree operation or a layout.
#[derive(Clone, Copy, Debug, PartialEq, Eq, Structural)]
pub enum TaffyError {
    /// The handle names no live node.
    InvalidNodeHandle,
    /// A child to attach already has another parent, or is named twice.
    ChildAlreadyParented,
    /// The node to remove still has children.
    NodeHasChildren,
    /// The child to attach is the node itself or one of its ancestors.
    CycleDetected,
    /// The tree is deeper than the tree's depth limit.
    DepthLimitExceeded,
}

/// A live node: its style, its children in order, and the size of its own
/// content, which a leaf is measured by.
pub struct NodeData {
    pub style: Style,
    pub children: Vec<NodeId>,
    pub content: Size<u32>,
}

/// One slot of the arena.
pub struct Slot {
    pub generation: u64,
    pub data: Option<NodeData>,
}

/// The handle names a live node.
pub open spec fn valid(nodes: Seq<Slot>, id: NodeId) -> bool {
    &&& id.index < nodes.len()
    &&& nodes[id.index as int].data.is_some()
    &&& nodes[id.index as int].generation == id.generation
}

pub open spec fn live(nodes: Seq<Slot>, i: int) -> bool {
    0 <= i < nodes.len() && nodes[i].data.is_some()
}

/// The handle of the live node in slot `i`.
pub open spec fn id_at(nodes: Seq<Slot>, i: int) -> NodeId {
    NodeId { index: i as usize, generation: nodes[i].generation }
}

pub open spec fn style_of(nodes: Seq<Slot>, id: NodeId) -> Style {
    nodes[id.index as int].data.unwrap().style
}

pub open spec fn kids(nodes: Seq<Slot>, id: NodeId) -> Seq<NodeId> {
    nodes[id.index as int].data.unwrap().children@
}

pub open spec fn content_of(nodes: Seq<Slot>, id: NodeId) -> Size<u32> {
    nodes[id.index as int].data.unwrap().content
}

/// Every child of a live node is live, and no node is named twice among all
/// children lists: each node has at most one parent, and appears once there.
pub open spec fn arena_wf(nodes: Seq<Slot>) -> bool {
    &&& forall|i: int, k: int|
        live(nodes, i) && 0 <= k < nodes[i].data.unwrap().children@.len() ==> valid(
            nodes,
            #[trigger] nodes[i].data.unwrap().children@[k],
        )
    &&& forall|i: int, j: int, k: int, l: int|
        live(nodes, i) && live(nodes, j) && 0 <= k < nodes[i].data.unwrap().children@.len() && 0 <= l
            < nodes[j].data.unwrap().children@.len() && #[trigger] nodes[i].data.unwrap().children@[k]
            == #[trigger] nodes[j].data.unwrap().children@[l] ==> i == j && k == l
    &&& forall|i: int, k: int|
        live(nodes, i) && 0 <= k < nodes[i].data.unwrap().children@.len()
            ==> #[trigger] nodes[i].data.unwrap().children@[k].index != i
}

/// How many live nodes the arena holds.
pub open spec fn live_count(nodes: Seq<Slot>) -> nat
    decreases nodes.len(),
{
    if nodes.len() == 0 {
        0
    } else {
        live_count(nodes.drop_last()) + if nodes.last().data.is_some() { 1nat } else { 0nat }
    }
}

/// Replacing one slot changes the count by what the slot's liveness does.
pub proof fn lemma_live_count_update(nodes: Seq<Slot>, j: int, slot: Slot)
    requires
        0 <= j < nodes.len(),
    ensures
        live_count(nodes.update(j, slot)) + (if nodes[j].data.is_some() { 1int } else { 0int }) == live_count(nodes)
            + (if slot.data.is_some() { 1int } else { 0int }),
    decreases nodes.len(),
{
    let u = nodes.update(j, slot);
    if j < nodes.len() - 1 {
        assert(u.drop_last() =~= nodes.drop_last().update(j, slot));
        lemma_live_count_update(nodes.drop_last(), j, slot);
    } else {
        assert(u.drop_last() =~= nodes.drop_last());
    }
}

/// Slot `i` holds a live parent of `c`.
pub open spec fn is_parent(nodes: Seq<Slot>, i: int, c: NodeId) -> bool {
    live(nodes, i) && nodes[i].data.unwrap().children@.contains(c)
}

/// The parent of a node, if it has one.
pub open spec fn parent_of(nodes: Seq<Slot>, c: NodeId) -> Option<NodeId> {
    if exists|i: int| is_parent(nodes, i, c) {
        Some(id_at(nodes, choose|i: int| is_parent(nodes, i, c)))
    } else {
        None
    }
}

/// The node and its ancestors, nearest first, following parents at most
/// `fuel` times.
pub open spec fn ancestry(nodes: Seq<Slot>, n: NodeId, fuel: nat) -> Seq<NodeId>
    decreases fuel,
{
    if fuel > 0 && parent_of(nodes, n).is_some() {
        seq![n] + ancestry(nodes, parent_of(nodes, n).unwrap(), (fuel - 1) as nat)
    } else {
        seq![n]
    }
}

} // verus!
