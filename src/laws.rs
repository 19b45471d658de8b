use vstd::prelude::*;
use crate::algo::{run_offset, round_clamped, spec_flex_main_sizes, spec_resolve_line, violates, LineView};
use crate::geometry::{AvailableSpace, Size};
use crate::node::{ancestry, valid, Layout, NodeId, TaffyError};
use crate::tree::{
    apply_writes, children_error, last_write, layout_log, lemma_apply_at, lemma_apply_len, TaffyTree,
};

verus! {

/// Giving a node, as a child, the node itself or one of its ancestors (a
/// node of which it is a descendant) fails with `CycleDetected`, whatever the
/// other children are, as long as each names a live node; `set_children`
/// then leaves the tree as it was.
pub proof fn law_cycle_rejected(tree: &TaffyTree, parent: NodeId, children: Seq<NodeId>, c: NodeId)
    requires
        valid(tree.nodes(), parent),
        forall|i: int| 0 <= i < children.len() ==> valid(tree.nodes(), #[trigger] children[i]),
        children.contains(c),
        ancestry(tree.nodes(), parent, tree.nodes().len()).contains(c),
    ensures
        children_error(tree.nodes(), parent, children) == Some(TaffyError::CycleDetected),
{
    let k = choose|k: int| 0 <= k < children.len() && children[k] == c;
    assert(ancestry(tree.nodes(), parent, tree.nodes().len()).contains(children[k]));
}

/// The writes a layout makes depend on the nodes, the root, the space offered
/// and the depth limit alone: not on what the tree remembers nor on the
/// layouts earlier computations left. `compute_layout` leaves exactly the old
/// layouts with these writes made.
pub proof fn law_layout_determined(
    a: &TaffyTree,
    b: &TaffyTree,
    root: NodeId,
    avail: Size<AvailableSpace>,
)
    requires
        a.nodes() == b.nodes(),
        a.max_depth() == b.max_depth(),
    ensures
        layout_log(a.nodes(), root, avail, a.max_depth()) == layout_log(b.nodes(), root, avail, b.max_depth()),
{
}

/// Laying out again, with the tree and the constraint unchanged, changes no
/// layout: making the same writes a second time leaves every slot as the
/// first time did.
pub proof fn law_relayout_idempotent(before: Seq<Layout>, log: Seq<(usize, Layout)>)
    ensures
        apply_writes(apply_writes(before, log), log) == apply_writes(before, log),
{
    let once = apply_writes(before, log);
    lemma_apply_len(before, log);
    lemma_apply_len(once, log);
    assert forall|i: int| 0 <= i < once.len() implies apply_writes(once, log)[i] == once[i] by {
        lemma_apply_at(once, log, i);
        lemma_apply_at(before, log, i);
    }
    assert(apply_writes(once, log) =~= once);
}

/// Whatever the layouts held before (what an earlier layout under another
/// constraint left, or nothing), each slot the writes reach ends with the
/// same layout; each slot they do not reach keeps what it held.
pub proof fn law_layout_ignores_history(a: Seq<Layout>, b: Seq<Layout>, log: Seq<(usize, Layout)>, i: int)
    requires
        a.len() == b.len(),
        0 <= i < a.len(),
    ensures
        last_write(log, i).is_some() ==> apply_writes(a, log)[i] == apply_writes(b, log)[i],
        last_write(log, i).is_none() ==> apply_writes(a, log)[i] == a[i],
{
    lemma_apply_at(a, log, i);
    lemma_apply_at(b, log, i);
}

/// In a block, the space between two adjacent siblings is the larger of the
/// first one's bottom margin and the second one's top margin, not their sum
/// (as long as the offsets stay within the largest length).
pub proof fn law_margins_collapse(heights: Seq<u32>, tops: Seq<u32>, bottoms: Seq<u32>, i: int)
    requires
        0 < i < heights.len(),
        tops.len() == heights.len(),
        bottoms.len() == heights.len(),
        run_offset(heights, tops, bottoms, 0, true, i - 1) + heights[i - 1] + bottoms[i - 1] + tops[i]
            <= u32::MAX,
    ensures
        run_offset(heights, tops, bottoms, 0, true, i) - (run_offset(heights, tops, bottoms, 0, true, i - 1)
            + heights[i - 1]) == if bottoms[i - 1] > tops[i] { bottoms[i - 1] } else { tops[i] },
{
}

/// Growing and shrinking never takes a flex item below its minimum size, even
/// where its share of the overflow would: the minimum wins over the maximum
/// and over the distribution, in every round.
pub proof fn law_flex_sizes_respect_min(l: LineView, i: int)
    requires
        0 <= i < l.bases.len(),
        l.mins.len() == l.bases.len(),
        l.maxs.len() == l.bases.len(),
        l.mins[i].is_some(),
    ensures
        spec_flex_main_sizes(l)[i] >= l.mins[i].unwrap(),
{
    lemma_rounds_respect_min(l, Seq::new(l.bases.len(), |k: int| false), l.bases, l.bases.len(), i);
}

proof fn lemma_rounds_respect_min(l: LineView, frozen: Seq<bool>, targets: Seq<u32>, rounds: nat, i: int)
    requires
        0 <= i < l.bases.len(),
        frozen.len() == l.bases.len(),
        targets.len() == l.bases.len(),
        l.mins.len() == l.bases.len(),
        l.maxs.len() == l.bases.len(),
        l.mins[i].is_some(),
        frozen[i] ==> targets[i] >= l.mins[i].unwrap(),
    ensures
        spec_resolve_line(l, frozen, targets, rounds)[i] >= l.mins[i].unwrap(),
    decreases rounds,
{
    let clamped = round_clamped(l, frozen, targets);
    if rounds > 0 && exists|k: int| 0 <= k < l.bases.len() && violates(l, frozen, targets, k) {
        let nf = Seq::new(l.bases.len(), |k: int| frozen[k] || violates(l, frozen, targets, k));
        let nt = Seq::new(
            l.bases.len(),
            |k: int| if frozen[k] || violates(l, frozen, targets, k) { clamped[k] } else { targets[k] },
        );
        lemma_rounds_respect_min(l, nf, nt, (rounds - 1) as nat, i);
    }
}

} // verus!
