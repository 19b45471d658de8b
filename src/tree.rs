use vstd::prelude::*;
use crate::geometry::{AvailableSpace, Size};
use crate::layout::{
    all_valid, child_layouts_of, container_content_of, definite_size_of, depth_ok, all_depth_ok, inner_avail_of,
    inner_size, lemma_size_iff_depth, lemma_sizes_iff_depth, node_size, offer, placement, settle_size, sizes_of,
    unknown,
};
use crate::node::{
    lemma_live_count_update, live_count, ancestry, arena_wf, content_of, id_at, is_parent, kids, live, parent_of, style_of, valid, Layout, NodeData, NodeId,
    Slot, TaffyError,
};
use crate::style::Style;
use crate::style::Display;

verus! {

/// How many results each node keeps.
pub const CACHE_SLOTS: usize = 4;

/// One remembered result: the size a node took for one set of inputs.
#[derive(Clone, Copy, Debug, PartialEq, Eq, Structural)]
pub struct CacheEntry {
    pub known: Size<Option<u32>>,
    pub avail: Size<AvailableSpace>,
    pub fuel: u32,
    pub size: Size<u32>,
}

/// The entry holds what sizing the node in slot `i` gives for its inputs.
pub open spec fn entry_ok(nodes: Seq<Slot>, i: int, e: CacheEntry) -> bool {
    live(nodes, i) && node_size(nodes, id_at(nodes, i), e.known, e.avail, e.fuel as nat) == Some(e.size)
}

/// Every remembered result is what a computation from scratch would give.
pub open spec fn caches_ok(nodes: Seq<Slot>, caches: Seq<Vec<CacheEntry>>) -> bool {
    &&& caches.len() == nodes.len()
    &&& forall|i: int| 0 <= i < caches.len() ==> (#[trigger] caches[i])@.len() <= CACHE_SLOTS
    &&& forall|i: int, j: int|
        0 <= i < caches.len() && 0 <= j < caches[i]@.len() ==> entry_ok(nodes, i, #[trigger] caches[i]@[j])
}

fn same_opt(a: Option<u32>, b: Option<u32>) -> (r: bool)
    ensures
        r == (a == b),
{
    match (a, b) {
        (Some(x), Some(y)) => x == y,
        (None, None) => true,
        _ => false,
    }
}

/// The entries, the one at `j` moved to the end as the most recently used.
fn touch(es: &Vec<CacheEntry>, j: usize) -> (r: Vec<CacheEntry>)
    requires
        j < es.len(),
    ensures
        r@.len() == es@.len(),
        forall|k: int| 0 <= k < r@.len() ==> es@.contains(#[trigger] r@[k]),
{
    let mut out: Vec<CacheEntry> = Vec::new();
    let mut k: usize = 0;
    while k < es.len()
        invariant
            j < es.len(),
            k <= es.len(),
            out@.len() == if k > j { k - 1 } else { k as int },
            forall|m: int| 0 <= m < out@.len() ==> es@.contains(#[trigger] out@[m]),
        decreases es.len() - k,
    {
        if k != j {
            out.push(es[k]);
            proof {
                assert(es@.contains(es@[k as int]));
            }
        }
        k += 1;
    }
    out.push(es[j]);
    proof {
        assert(es@.contains(es@[j as int]));
    }
    out
}

/// The entries with `e` added, the oldest dropped to stay within the slots.
fn remember(es: &Vec<CacheEntry>, e: CacheEntry) -> (r: Vec<CacheEntry>)
    requires
        es.len() <= CACHE_SLOTS,
    ensures
        r@.len() <= CACHE_SLOTS,
        forall|k: int| 0 <= k < r@.len() ==> es@.contains(#[trigger] r@[k]) || r@[k] == e,
{
    let mut out: Vec<CacheEntry> = Vec::new();
    let start: usize = if es.len() >= CACHE_SLOTS { 1 } else { 0 };
    let mut k: usize = start;
    while k < es.len()
        invariant
            start <= k <= es.len(),
            es.len() <= CACHE_SLOTS,
            start == (if es.len() >= CACHE_SLOTS { 1usize } else { 0usize }),
            out@.len() == k - start,
            forall|m: int| 0 <= m < out@.len() ==> es@.contains(#[trigger] out@[m]),
        decreases es.len() - k,
    {
        out.push(es[k]);
        proof {
            assert(es@.contains(es@[k as int]));
        }
        k += 1;
    }
    out.push(e);
    out
}

/// The size of a node, from its cache where it holds the answer.
fn measure(
    nodes: &Vec<Slot>,
    caches: &mut Vec<Vec<CacheEntry>>,
    id: NodeId,
    known: Size<Option<u32>>,
    avail: Size<AvailableSpace>,
    fuel: u32,
) -> (r: Option<Size<u32>>)
    requires
        arena_wf(nodes@),
        caches_ok(nodes@, old(caches)@),
        valid(nodes@, id),
    ensures
        caches_ok(nodes@, final(caches)@),
        r == node_size(nodes@, id, known, avail, fuel as nat),
    decreases fuel, 1nat,
{
    if fuel == 0 {
        return None;
    }
    let i = id.index;
    proof {
        assert(id_at(nodes@, i as int) == id);
    }
    let mut j: usize = 0;
    while j < caches[i].len()
        invariant
            caches_ok(nodes@, caches@),
            i == id.index,
            id_at(nodes@, i as int) == id,
            i < caches@.len(),
            j <= caches@[i as int]@.len(),
        decreases caches@[i as int]@.len() - j,
    {
        let e = caches[i][j];
        if same_opt(e.known.width, known.width) && same_opt(e.known.height, known.height) && e.avail == avail
            && e.fuel == fuel {
            proof {
                assert(entry_ok(nodes@, i as int, caches@[i as int]@[j as int]));
                assert(e.known == known);
                assert(e.avail.width == avail.width && e.avail.height == avail.height);
                assert(e.avail == avail);
            }
            let moved = touch(&caches[i], j);
            proof {
                assert forall|k: int| 0 <= k < moved@.len() implies entry_ok(nodes@, i as int, #[trigger] moved@[k]) by {
                    let m = choose|m: int| 0 <= m < caches@[i as int]@.len() && caches@[i as int]@[m] == moved@[k];
                    assert(entry_ok(nodes@, i as int, caches@[i as int]@[m]));
                }
            }
            caches.set(i, moved);
            return Some(e.size);
        }
        j += 1;
    }
    let data = nodes[i].data.as_ref().unwrap();
    let s = &data.style;
    let d = definite_size_of(s, known, avail);
    let size = if s.display == Display::Hidden {
        Size { width: 0u32, height: 0u32 }
    } else if data.children.len() == 0 {
        settle_size(s, d, data.content, avail)
    } else {
        let ia = inner_avail_of(s, d, avail);
        proof {
            lemma_sizes_iff_depth(nodes@, data.children@, ia, (fuel - 1) as nat);
            assert(all_valid(nodes@, data.children@));
        }
        match measure_children(nodes, caches, &data.children, ia, fuel) {
            Some(cs) => settle_size(s, d, container_content_of(s, nodes, &data.children, &cs, ia), avail),
            None => {
                return None;
            },
        }
    };
    let e = CacheEntry { known, avail, fuel, size };
    proof {
        assert(entry_ok(nodes@, i as int, e));
    }
    let updated = remember(&caches[i], e);
    proof {
        assert forall|k: int| 0 <= k < updated@.len() implies entry_ok(nodes@, i as int, #[trigger] updated@[k]) by {
            if updated@[k] != e {
                let m = choose|m: int| 0 <= m < caches@[i as int]@.len() && caches@[i as int]@[m] == updated@[k];
                assert(entry_ok(nodes@, i as int, caches@[i as int]@[m]));
            }
        }
    }
    caches.set(i, updated);
    Some(size)
}

/// The sizes of the children of a node that has `fuel` levels left, each
/// measured in `avail`.
fn measure_children(
    nodes: &Vec<Slot>,
    caches: &mut Vec<Vec<CacheEntry>>,
    ks: &Vec<NodeId>,
    avail: Size<AvailableSpace>,
    fuel: u32,
) -> (r: Option<Vec<Size<u32>>>)
    requires
        arena_wf(nodes@),
        caches_ok(nodes@, old(caches)@),
        all_valid(nodes@, ks@),
        fuel > 0,
    ensures
        caches_ok(nodes@, final(caches)@),
        r.is_some() == sizes_of(nodes@, ks@, avail, (fuel - 1) as nat).is_some(),
        r.is_some() ==> r.unwrap()@ == sizes_of(nodes@, ks@, avail, (fuel - 1) as nat).unwrap(),
    decreases fuel, 0nat,
{
    let ghost f = (fuel - 1) as nat;
    let mut cs: Vec<Size<u32>> = Vec::new();
    let mut k: usize = 0;
    while k < ks.len()
        invariant
            arena_wf(nodes@),
            caches_ok(nodes@, caches@),
            all_valid(nodes@, ks@),
            fuel > 0,
            f == fuel - 1,
            k <= ks.len(),
            sizes_of(nodes@, ks@.take(k as int), avail, f) == Some(cs@),
        decreases ks.len() - k,
    {
        assert(valid(nodes@, ks@[k as int]));
        let z = measure(nodes, caches, ks[k], Size { width: None, height: None }, avail, fuel - 1);
        proof {
            assert(ks@.take(k + 1).drop_last() =~= ks@.take(k as int));
            assert(ks@.take(k + 1).last() == ks@[k as int]);
        }
        match z {
            Some(z) => {
                cs.push(z);
            },
            None => {
                proof {
                    if sizes_of(nodes@, ks@, avail, f).is_some() {
                        lemma_sizes_prefix(nodes@, ks@, (k + 1) as int, avail, f);
                    }
                }
                return None;
            },
        }
        k += 1;
    }
    proof {
        assert(ks@.take(k as int) =~= ks@);
    }
    Some(cs)
}

/// Where a list of children can be measured, so can each of its prefixes.
proof fn lemma_sizes_prefix(nodes: Seq<Slot>, ks: Seq<NodeId>, j: int, avail: Size<AvailableSpace>, fuel: nat)
    requires
        0 <= j <= ks.len(),
        sizes_of(nodes, ks, avail, fuel).is_some(),
    ensures
        sizes_of(nodes, ks.take(j), avail, fuel).is_some(),
    decreases ks.len(),
{
    if j == ks.len() {
        assert(ks.take(j) =~= ks);
    } else {
        assert(ks.drop_last().take(j) =~= ks.take(j));
        lemma_sizes_prefix(nodes, ks.drop_last(), j, avail, fuel);
    }
}

/// Each list of a node's children that can be measured holds only children
/// whose own trees are shallow enough.
proof fn lemma_all_depth(nodes: Seq<Slot>, ks: Seq<NodeId>, fuel: nat, i: int)
    requires
        all_depth_ok(nodes, ks, fuel),
        0 <= i < ks.len(),
    ensures
        depth_ok(nodes, ks[i], fuel),
    decreases ks.len(),
{
    if i < ks.len() - 1 {
        assert(ks.drop_last()[i] == ks[i]);
        lemma_all_depth(nodes, ks.drop_last(), fuel, i);
    }
}

/// The layouts `out` once the writes of `log` are made, in order.
pub open spec fn apply_writes(out: Seq<Layout>, log: Seq<(usize, Layout)>) -> Seq<Layout>
    decreases log.len(),
{
    if log.len() == 0 {
        out
    } else {
        let prev = apply_writes(out, log.drop_last());
        let w = log.last();
        if w.0 < prev.len() { prev.update(w.0 as int, w.1) } else { prev }
    }
}

/// The last layout `log` writes to slot `i`, if it writes one.
pub open spec fn last_write(log: Seq<(usize, Layout)>, i: int) -> Option<Layout>
    decreases log.len(),
{
    if log.len() == 0 {
        None
    } else if log.last().0 as int == i {
        Some(log.last().1)
    } else {
        last_write(log.drop_last(), i)
    }
}

/// The writes that laying out the tree below node `id`, of final size `z`,
/// makes: the trees below its children, one after the other, then each
/// child's own layout as `placement` gives it.
pub open spec fn place_log(nodes: Seq<Slot>, id: NodeId, z: Size<u32>, fuel: nat) -> Seq<(usize, Layout)>
    decreases fuel, 0nat,
{
    if fuel == 0 {
        Seq::empty()
    } else {
        match placement(nodes, id, z, fuel) {
            Some(ls) => if ls.len() == kids(nodes, id).len() {
                subtree_logs(nodes, kids(nodes, id), ls, (fuel - 1) as nat, ls.len())
                    + child_writes(kids(nodes, id), ls)
            } else {
                Seq::empty()
            },
            None => Seq::empty(),
        }
    }
}

/// The writes that give each child its layout.
pub open spec fn child_writes(ks: Seq<NodeId>, ls: Seq<Layout>) -> Seq<(usize, Layout)> {
    Seq::new(ls.len(), |k: int| (ks[k].index, ls[k]))
}

/// The writes that lay out the trees below the first `n` children.
pub open spec fn subtree_logs(nodes: Seq<Slot>, ks: Seq<NodeId>, ls: Seq<Layout>, fuel: nat, n: nat) -> Seq<
    (usize, Layout),
>
    decreases fuel, n + 1,
{
    if n == 0 {
        Seq::empty()
    } else {
        subtree_logs(nodes, ks, ls, fuel, (n - 1) as nat) + place_log(nodes, ks[n - 1], ls[n - 1].size, fuel)
    }
}

/// All the writes a layout of `root` makes: the tree below it, then the root
/// at the origin.
pub open spec fn layout_log(nodes: Seq<Slot>, root: NodeId, avail: Size<AvailableSpace>, depth: u32) -> Seq<
    (usize, Layout),
> {
    let z = root_size(nodes, root, avail, depth);
    place_log(nodes, root, z, depth as nat).push((root.index, Layout { x: 0, y: 0, size: z }))
}

pub proof fn lemma_apply_len(out: Seq<Layout>, log: Seq<(usize, Layout)>)
    ensures
        apply_writes(out, log).len() == out.len(),
    decreases log.len(),
{
    if log.len() > 0 {
        lemma_apply_len(out, log.drop_last());
    }
}

pub proof fn lemma_apply_concat(out: Seq<Layout>, a: Seq<(usize, Layout)>, b: Seq<(usize, Layout)>)
    ensures
        apply_writes(apply_writes(out, a), b) == apply_writes(out, a + b),
    decreases b.len(),
{
    if b.len() == 0 {
        assert(a + b =~= a);
    } else {
        assert((a + b).drop_last() =~= a + b.drop_last());
        lemma_apply_concat(out, a, b.drop_last());
    }
}

/// After the writes, a slot holds the last layout written to it, or what it
/// held before where nothing was written to it.
pub proof fn lemma_apply_at(out: Seq<Layout>, log: Seq<(usize, Layout)>, i: int)
    requires
        0 <= i < out.len(),
    ensures
        apply_writes(out, log)[i] == match last_write(log, i) {
            Some(v) => v,
            None => out[i],
        },
    decreases log.len(),
{
    if log.len() > 0 {
        lemma_apply_at(out, log.drop_last(), i);
        lemma_apply_len(out, log.drop_last());
    }
}

/// Lays out the children of a node of final size `z`, then, below each child,
/// its own children, and so on down the tree.
fn place(
    nodes: &Vec<Slot>,
    caches: &mut Vec<Vec<CacheEntry>>,
    out: &mut Vec<Layout>,
    id: NodeId,
    z: Size<u32>,
    fuel: u32,
)
    requires
        arena_wf(nodes@),
        caches_ok(nodes@, old(caches)@),
        valid(nodes@, id),
        depth_ok(nodes@, id, fuel as nat),
        old(out)@.len() == nodes@.len(),
    ensures
        caches_ok(nodes@, final(caches)@),
        final(out)@.len() == nodes@.len(),
        final(out)@ == apply_writes(old(out)@, place_log(nodes@, id, z, fuel as nat)),
        placement(nodes@, id, z, fuel as nat).is_some(),
        style_of(nodes@, id).display != Display::Hidden ==> forall|k: int|
            0 <= k < kids(nodes@, id).len() ==> final(out)@[kids(nodes@, id)[k].index as int] == placement(
                nodes@,
                id,
                z,
                fuel as nat,
            ).unwrap()[k],
    decreases fuel,
{
    let data = nodes[id.index].data.as_ref().unwrap();
    let s = &data.style;
    let ks = &data.children;
    let ghost out0 = out@;
    if s.display == Display::Hidden || ks.len() == 0 {
        proof {
            assert(place_log(nodes@, id, z, fuel as nat) =~= Seq::<(usize, Layout)>::empty());
        }
        return;
    }
    let inner = inner_size(s, z);
    let ia = Size { width: AvailableSpace::Definite(inner.width), height: AvailableSpace::Definite(inner.height) };
    proof {
        assert(ia == offer(inner));
        lemma_sizes_iff_depth(nodes@, ks@, ia, (fuel - 1) as nat);
        assert(all_valid(nodes@, ks@));
    }
    let cs = measure_children(nodes, caches, ks, ia, fuel).unwrap();
    let ls = child_layouts_of(s, nodes, ks, &cs, inner);
    let ghost spec_ls = placement(nodes@, id, z, fuel as nat).unwrap();
    assert(ls@ == spec_ls);
    let mut k: usize = 0;
    while k < ks.len()
        invariant
            arena_wf(nodes@),
            caches_ok(nodes@, caches@),
            all_valid(nodes@, ks@),
            all_depth_ok(nodes@, ks@, (fuel - 1) as nat),
            fuel > 0,
            ls@.len() == ks@.len(),
            out@.len() == nodes@.len(),
            k <= ks.len(),
            out@ == apply_writes(out0, subtree_logs(nodes@, ks@, ls@, (fuel - 1) as nat, k as nat)),
        decreases ks.len() - k,
    {
        proof {
            lemma_all_depth(nodes@, ks@, (fuel - 1) as nat, k as int);
        }
        let ghost before = out@;
        place(nodes, caches, out, ks[k], ls[k].size, fuel - 1);
        proof {
            lemma_apply_concat(
                out0,
                subtree_logs(nodes@, ks@, ls@, (fuel - 1) as nat, k as nat),
                place_log(nodes@, ks@[k as int], ls@[k as int].size, (fuel - 1) as nat),
            );
        }
        k += 1;
    }
    let ghost subs = subtree_logs(nodes@, ks@, ls@, (fuel - 1) as nat, ks@.len());
    let ghost kw = child_writes(ks@, ls@);
    let mut k: usize = 0;
    while k < ks.len()
        invariant
            arena_wf(nodes@),
            valid(nodes@, id),
            ks@ == kids(nodes@, id),
            all_valid(nodes@, ks@),
            ls@.len() == ks@.len(),
            out@.len() == nodes@.len(),
            k <= ks.len(),
            forall|m: int| 0 <= m < k ==> out@[#[trigger] ks@[m].index as int] == ls@[m],
            kw == child_writes(ks@, ls@),
            out@ == apply_writes(out0, subs + kw.take(k as int)),
        decreases ks.len() - k,
    {
        assert(valid(nodes@, ks@[k as int]));
        proof {
            assert forall|m: int| 0 <= m < k implies ks@[m].index != ks@[k as int].index by {
                assert(valid(nodes@, ks@[m]));
                if ks@[m].index == ks@[k as int].index {
                    assert(ks@[m] == ks@[k as int]);
                    let pi = id.index as int;
                    assert(nodes@[pi].data.unwrap().children@[m] == nodes@[pi].data.unwrap().children@[k as int]);
                }
            }
        }
        proof {
            lemma_apply_len(out0, subs + kw.take(k as int));
            assert((subs + kw.take(k + 1)).drop_last() =~= subs + kw.take(k as int));
            assert((subs + kw.take(k + 1)).last() == (ks@[k as int].index, ls@[k as int]));
        }
        out.set(ks[k].index, ls[k]);
        k += 1;
    }
    proof {
        assert(kw.take(k as int) =~= kw);
        assert(spec_ls.len() == kids(nodes@, id).len());
    }
}

/// An arena of nodes, the sizes remembered for each, and the layout of each
/// as the last successful computation left it.
pub struct TaffyTree {
    nodes: Vec<Slot>,
    caches: Vec<Vec<CacheEntry>>,
    layouts: Vec<Layout>,
    max_depth: u32,
}

/// How deep a tree may be before a layout gives up, unless set otherwise.
pub const DEFAULT_MAX_DEPTH: u32 = 256;

fn empty_caches(n: usize) -> (r: Vec<Vec<CacheEntry>>)
    ensures
        r@.len() == n,
        forall|i: int| 0 <= i < n ==> (#[trigger] r@[i])@.len() == 0,
{
    let mut r: Vec<Vec<CacheEntry>> = Vec::new();
    let mut i: usize = 0;
    while i < n
        invariant
            i <= n,
            r@.len() == i,
            forall|k: int| 0 <= k < i ==> (#[trigger] r@[k])@.len() == 0,
        decreases n - i,
    {
        r.push(Vec::new());
        i += 1;
    }
    r
}

/// The slot of a live node, with its children replaced.
pub open spec fn with_children(old_slot: Slot, new_slot: Slot, cs: Seq<NodeId>) -> bool {
    &&& new_slot.generation == old_slot.generation
    &&& new_slot.data.is_some()
    &&& new_slot.data.unwrap().style == old_slot.data.unwrap().style
    &&& new_slot.data.unwrap().content == old_slot.data.unwrap().content
    &&& new_slot.data.unwrap().children@ == cs
}

/// The nodes are the old ones, but for slot `i`, which `changed` relates to
/// its old value.
pub open spec fn same_but(a: Seq<Slot>, b: Seq<Slot>, i: int) -> bool {
    &&& a.len() == b.len()
    &&& forall|j: int| 0 <= j < a.len() && j != i ==> a[j] == b[j]
}

/// Why a list of children cannot be given to `p`, if it cannot: a handle
/// that names no node; a child that is `p` or one of its ancestors; a child
/// that has another parent or is named twice.
pub open spec fn children_error(nodes: Seq<Slot>, p: NodeId, cs: Seq<NodeId>) -> Option<TaffyError> {
    if !valid(nodes, p) || exists|i: int| 0 <= i < cs.len() && !valid(nodes, #[trigger] cs[i]) {
        Some(TaffyError::InvalidNodeHandle)
    } else if exists|i: int| 0 <= i < cs.len() && ancestry(nodes, p, nodes.len()).contains(#[trigger] cs[i]) {
        Some(TaffyError::CycleDetected)
    } else if exists|i: int|
        0 <= i < cs.len() && (#[trigger] parent_of(nodes, cs[i])).is_some() && parent_of(nodes, cs[i]).unwrap()
            != p {
        Some(TaffyError::ChildAlreadyParented)
    } else if exists|i: int, j: int| 0 <= i < j < cs.len() && #[trigger] cs[i] == #[trigger] cs[j] {
        Some(TaffyError::ChildAlreadyParented)
    } else {
        None
    }
}

impl TaffyTree {
    pub closed spec fn nodes(&self) -> Seq<Slot> {
        self.nodes@
    }

    pub closed spec fn layouts(&self) -> Seq<Layout> {
        self.layouts@
    }

    pub closed spec fn max_depth(&self) -> u32 {
        self.max_depth
    }

    /// The arena is well formed, every remembered size is right, and there is
    /// one layout for each slot.
    pub closed spec fn wf(&self) -> bool {
        &&& arena_wf(self.nodes@)
        &&& caches_ok(self.nodes@, self.caches@)
        &&& self.layouts@.len() == self.nodes@.len()
    }

    /// The sizes remembered for the node in each slot.
    pub closed spec fn cached(&self) -> Seq<Seq<CacheEntry>> {
        Seq::new(self.caches@.len(), |i: int| self.caches@[i]@)
    }

    /// Every size a well-formed tree remembers is the size that computing the
    /// node from scratch, with the same inputs, gives: answering from the
    /// cache or computing anew cannot change a layout.
    pub proof fn lemma_cache_transparent(&self, i: int, j: int)
        requires
            self.wf(),
            0 <= i < self.cached().len(),
            0 <= j < self.cached()[i].len(),
        ensures
            entry_ok(self.nodes(), i, self.cached()[i][j]),
    {
        assert(self.cached()[i] == self.caches@[i]@);
    }

    /// A well-formed tree holds a well-formed arena.
    pub proof fn lemma_wf_arena(&self)
        requires
            self.wf(),
        ensures
            arena_wf(self.nodes()),
    {
    }

    /// An empty tree.
    pub fn new() -> (r: TaffyTree)
        ensures
            r.wf(),
            r.nodes().len() == 0,
            r.max_depth() == DEFAULT_MAX_DEPTH,
    {
        TaffyTree { nodes: Vec::new(), caches: Vec::new(), layouts: Vec::new(), max_depth: DEFAULT_MAX_DEPTH }
    }

    /// Sets how deep a tree may be before a layout fails.
    pub fn set_max_depth(&mut self, depth: u32)
        requires
            old(self).wf(),
        ensures
            final(self).wf(),
            final(self).nodes() == old(self).nodes(),
            final(self).layouts() == old(self).layouts(),
            final(self).max_depth() == depth,
    {
        self.max_depth = depth;
    }

    /// Forgets every remembered size.
    fn clear_caches(&mut self)
        requires
            arena_wf(old(self).nodes@),
            old(self).layouts@.len() == old(self).nodes@.len(),
        ensures
            final(self).wf(),
            final(self).nodes@ == old(self).nodes@,
            final(self).layouts@ == old(self).layouts@,
            final(self).max_depth == old(self).max_depth,
            forall|i: int| 0 <= i < final(self).cached().len() ==> (#[trigger] final(self).cached()[i]).len() == 0,
    {
        self.caches = empty_caches(self.nodes.len());
    }

    /// Forgets every remembered size; the next layout computes each anew.
    pub fn clear_cache(&mut self)
        requires
            old(self).wf(),
        ensures
            final(self).wf(),
            final(self).nodes() == old(self).nodes(),
            final(self).layouts() == old(self).layouts(),
            final(self).max_depth() == old(self).max_depth(),
            forall|i: int| 0 <= i < final(self).cached().len() ==> (#[trigger] final(self).cached()[i]).len() == 0,
    {
        self.clear_caches();
    }

    /// Whether the handle names a live node.
    pub fn is_valid(&self, id: NodeId) -> (r: bool)
        ensures
            r == valid(self.nodes(), id),
    {
        id.index < self.nodes.len() && self.nodes[id.index].data.is_some() && self.nodes[id.index].generation
            == id.generation
    }
}

/// Whether `c` is among the children.
fn holds(cs: &Vec<NodeId>, c: NodeId) -> (r: bool)
    ensures
        r == cs@.contains(c),
{
    let mut k: usize = 0;
    while k < cs.len()
        invariant
            k <= cs.len(),
            forall|m: int| 0 <= m < k ==> cs@[m] != c,
        decreases cs.len() - k,
    {
        if cs[k] == c {
            proof {
                assert(cs@[k as int] == c);
            }
            return true;
        }
        k += 1;
    }
    false
}

/// The parent of `c`, found by looking through every live node.
fn find_parent(nodes: &Vec<Slot>, c: NodeId) -> (r: Option<NodeId>)
    requires
        arena_wf(nodes@),
    ensures
        r == parent_of(nodes@, c),
{
    let mut i: usize = 0;
    while i < nodes.len()
        invariant
            arena_wf(nodes@),
            i <= nodes.len(),
            forall|j: int| 0 <= j < i ==> !is_parent(nodes@, j, c),
        decreases nodes.len() - i,
    {
        if let Some(d) = &nodes[i].data {
            if holds(&d.children, c) {
                proof {
                    assert(is_parent(nodes@, i as int, c));
                    let j = choose|j: int| is_parent(nodes@, j, c);
                    let cj = nodes@[j].data.unwrap().children@;
                    let ci = nodes@[i as int].data.unwrap().children@;
                    let l = choose|l: int| 0 <= l < cj.len() && cj[l] == c;
                    let k = choose|k: int| 0 <= k < ci.len() && ci[k] == c;
                    assert(live(nodes@, i as int) && live(nodes@, j));
                    assert(0 <= k < nodes@[i as int].data.unwrap().children@.len());
                    assert(0 <= l < nodes@[j].data.unwrap().children@.len());
                    assert(nodes@[i as int].data.unwrap().children@[k] == nodes@[j].data.unwrap().children@[l]);
                    assert(i as int == j && k == l);
                }
                return Some(NodeId { index: i, generation: nodes[i].generation });
            }
        }
        i += 1;
    }
    None
}

/// The node and its ancestors, nearest first.
fn ancestors(nodes: &Vec<Slot>, p: NodeId) -> (r: Vec<NodeId>)
    requires
        arena_wf(nodes@),
    ensures
        r@ == ancestry(nodes@, p, nodes@.len()),
{
    let n = nodes.len();
    let mut chain: Vec<NodeId> = Vec::new();
    chain.push(p);
    let mut cur = p;
    let mut steps: usize = 0;
    while steps < n
        invariant
            arena_wf(nodes@),
            n == nodes@.len(),
            steps <= n,
            chain@.len() > 0,
            chain@.last() == cur,
            ancestry(nodes@, p, n as nat) == chain@.drop_last() + ancestry(nodes@, cur, (n - steps) as nat),
        decreases n - steps,
    {
        match find_parent(nodes, cur) {
            Some(q) => {
                proof {
                    assert(ancestry(nodes@, cur, (n - steps) as nat) == seq![cur] + ancestry(
                        nodes@,
                        q,
                        (n - steps - 1) as nat,
                    ));
                    assert(chain@.push(q).drop_last() =~= chain@.drop_last() + seq![cur]);
                }
                chain.push(q);
                cur = q;
                steps += 1;
            },
            None => {
                proof {
                    assert(chain@ =~= chain@.drop_last() + seq![cur]);
                }
                return chain;
            },
        }
    }
    proof {
        assert(chain@ =~= chain@.drop_last() + seq![cur]);
    }
    chain
}

fn is_live(nodes: &Vec<Slot>, id: NodeId) -> (r: bool)
    ensures
        r == valid(nodes@, id),
{
    id.index < nodes.len() && nodes[id.index].data.is_some() && nodes[id.index].generation == id.generation
}

/// Why `cs` cannot become the children of `p`, if it cannot.
fn check_children(nodes: &Vec<Slot>, p: NodeId, cs: &Vec<NodeId>) -> (r: Option<TaffyError>)
    requires
        arena_wf(nodes@),
    ensures
        r == children_error(nodes@, p, cs@),
{
    if !is_live(nodes, p) {
        return Some(TaffyError::InvalidNodeHandle);
    }
    let mut i: usize = 0;
    while i < cs.len()
        invariant
            i <= cs.len(),
            forall|m: int| 0 <= m < i ==> valid(nodes@, #[trigger] cs@[m]),
        decreases cs.len() - i,
    {
        if !is_live(nodes, cs[i]) {
            return Some(TaffyError::InvalidNodeHandle);
        }
        i += 1;
    }
    let chain = ancestors(nodes, p);
    let mut i: usize = 0;
    while i < cs.len()
        invariant
            valid(nodes@, p),
            forall|m: int| 0 <= m < cs.len() ==> valid(nodes@, #[trigger] cs@[m]),
            i <= cs.len(),
            chain@ == ancestry(nodes@, p, nodes@.len()),
            forall|m: int| 0 <= m < i ==> !chain@.contains(#[trigger] cs@[m]),
        decreases cs.len() - i,
    {
        if holds(&chain, cs[i]) {
            return Some(TaffyError::CycleDetected);
        }
        i += 1;
    }
    let mut i: usize = 0;
    while i < cs.len()
        invariant
            arena_wf(nodes@),
            valid(nodes@, p),
            forall|m: int| 0 <= m < cs.len() ==> valid(nodes@, #[trigger] cs@[m]),
            forall|m: int| 0 <= m < cs.len() ==> !ancestry(nodes@, p, nodes@.len()).contains(#[trigger] cs@[m]),
            i <= cs.len(),
            forall|m: int|
                0 <= m < i ==> !((#[trigger] parent_of(nodes@, cs@[m])).is_some() && parent_of(nodes@, cs@[m]).unwrap()
                    != p),
        decreases cs.len() - i,
    {
        match find_parent(nodes, cs[i]) {
            Some(q) => {
                if q != p {
                    return Some(TaffyError::ChildAlreadyParented);
                }
            },
            None => {},
        }
        i += 1;
    }
    let mut i: usize = 0;
    while i < cs.len()
        invariant
            valid(nodes@, p),
            forall|m: int| 0 <= m < cs.len() ==> valid(nodes@, #[trigger] cs@[m]),
            forall|m: int| 0 <= m < cs.len() ==> !ancestry(nodes@, p, nodes@.len()).contains(#[trigger] cs@[m]),
            forall|m: int|
                0 <= m < cs.len() ==> !((#[trigger] parent_of(nodes@, cs@[m])).is_some() && parent_of(nodes@, cs@[m]).unwrap()
                    != p),
            i <= cs.len(),
            forall|a: int, b: int| 0 <= a < b < cs.len() && a < i ==> #[trigger] cs@[a] != #[trigger] cs@[b],
        decreases cs.len() - i,
    {
        let mut j: usize = i + 1;
        while j < cs.len()
            invariant
                valid(nodes@, p),
                forall|m: int| 0 <= m < cs.len() ==> valid(nodes@, #[trigger] cs@[m]),
                forall|m: int| 0 <= m < cs.len() ==> !ancestry(nodes@, p, nodes@.len()).contains(#[trigger] cs@[m]),
                forall|m: int|
                    0 <= m < cs.len() ==> !((#[trigger] parent_of(nodes@, cs@[m])).is_some() && parent_of(nodes@, cs@[m]).unwrap()
                        != p),
                i < cs.len(),
                i + 1 <= j <= cs.len(),
                forall|a: int, b: int| 0 <= a < b < cs.len() && a < i ==> #[trigger] cs@[a] != #[trigger] cs@[b],
                forall|b: int| i < b < j ==> cs@[i as int] != #[trigger] cs@[b],
            decreases cs.len() - j,
        {
            if cs[i] == cs[j] {
                proof {
                    assert(cs@[i as int] == cs@[j as int]);
                }
                return Some(TaffyError::ChildAlreadyParented);
            }
            j += 1;
        }
        i += 1;
    }
    None
}

/// A free slot whose generation can still be raised, if there is one.
fn free_slot(nodes: &Vec<Slot>) -> (r: Option<usize>)
    ensures
        r.is_some() ==> r.unwrap() < nodes@.len() && nodes@[r.unwrap() as int].data.is_none()
            && nodes@[r.unwrap() as int].generation < u64::MAX,
{
    let mut i: usize = 0;
    while i < nodes.len()
        invariant
            i <= nodes.len(),
        decreases nodes.len() - i,
    {
        if nodes[i].data.is_none() && nodes[i].generation < u64::MAX {
            return Some(i);
        }
        i += 1;
    }
    None
}

/// Puts `slot` in place `i`.
fn put(nodes: &mut Vec<Slot>, i: usize, slot: Slot) -> (r: Slot)
    requires
        i < old(nodes)@.len(),
    ensures
        final(nodes)@ == old(nodes)@.update(i as int, slot),
        r == old(nodes)@[i as int],
{
    let r = nodes.remove(i);
    nodes.insert(i, slot);
    proof {
        assert(nodes@ =~= old(nodes)@.update(i as int, slot));
    }
    r
}

impl TaffyTree {
    /// Adds a node with the given style, no children and no content.
    pub fn new_leaf(&mut self, style: Style) -> (r: Result<NodeId, TaffyError>)
        requires
            old(self).wf(),
        ensures
            final(self).wf(),
            r.is_ok(),
            !valid(old(self).nodes(), r.unwrap()),
            valid(final(self).nodes(), r.unwrap()),
            style_of(final(self).nodes(), r.unwrap()) == style,
            kids(final(self).nodes(), r.unwrap()).len() == 0,
            content_of(final(self).nodes(), r.unwrap()) == (Size { width: 0u32, height: 0u32 }),
            final(self).nodes().len() >= old(self).nodes().len(),
            r.unwrap().index >= old(self).nodes().len() || old(self).nodes()[r.unwrap().index as int].data.is_none(),
            extends(old(self).nodes(), final(self).nodes()),
            parent_of(final(self).nodes(), r.unwrap()).is_none(),
            live_count(final(self).nodes()) == live_count(old(self).nodes()) + 1,
            final(self).nodes().len() == old(self).nodes().len() || (final(self).nodes().len() == old(
                self,
            ).nodes().len() + 1 && r.unwrap().index == old(self).nodes().len()),
            forall|j: int|
                0 <= j < old(self).nodes().len() && j != r.unwrap().index ==> final(self).nodes()[j] == old(
                    self,
                ).nodes()[j],
            final(self).max_depth() == old(self).max_depth(),
    {
        let data = NodeData { style, children: Vec::new(), content: Size { width: 0, height: 0 } };
        let ghost on0 = self.nodes@;
        let id = match free_slot(&self.nodes) {
            Some(i) => {
                let g = self.nodes[i].generation + 1;
                proof {
                    lemma_live_count_update(on0, i as int, Slot { generation: g, data: Some(data) });
                }
                put(&mut self.nodes, i, Slot { generation: g, data: Some(data) });
                NodeId { index: i, generation: g }
            },
            None => {
                let i = self.nodes.len();
                self.nodes.push(Slot { generation: 0, data: Some(data) });
                proof {
                    assert(self.nodes@.drop_last() =~= on0);
                }
                self.layouts.push(Layout { x: 0, y: 0, size: Size { width: 0, height: 0 } });
                NodeId { index: i, generation: 0 }
            },
        };
        proof {
            let nn = self.nodes@;
            let on = old(self).nodes@;
            assert forall|i: int, k: int|
                live(nn, i) && 0 <= k < nn[i].data.unwrap().children@.len() implies valid(
                nn,
                #[trigger] nn[i].data.unwrap().children@[k],
            ) by {
                assert(i != id.index);
                assert(nn[i] == on[i]);
                assert(valid(on, on[i].data.unwrap().children@[k]));
            }
            assert forall|i: int, j: int, k: int, l: int|
                live(nn, i) && live(nn, j) && 0 <= k < nn[i].data.unwrap().children@.len() && 0 <= l
                    < nn[j].data.unwrap().children@.len() && #[trigger] nn[i].data.unwrap().children@[k]
                    == #[trigger] nn[j].data.unwrap().children@[l] implies i == j && k == l by {
                assert(nn[i] == on[i]);
                assert(nn[j] == on[j]);
            }
            assert forall|i: int, k: int|
                live(nn, i) && 0 <= k < nn[i].data.unwrap().children@.len()
                    implies #[trigger] nn[i].data.unwrap().children@[k].index != i by {
                assert(nn[i] == on[i]);
            }
            assert forall|j: int| live(on, j) implies #[trigger] nn[j] == on[j] by {}
            assert forall|i: int| !is_parent(nn, i, id) by {
                if is_parent(nn, i, id) {
                    assert(nn[i] == on[i]);
                    let k = choose|k: int| 0 <= k < on[i].data.unwrap().children@.len() && on[i].data.unwrap().children@[k] == id;
                    assert(valid(on, on[i].data.unwrap().children@[k]));
                }
            }
        }
        self.clear_caches();
        Ok(id)
    }

    /// Gives `parent` the children `children`, in order, in place of those it
    /// had, which become roots. Fails, changing nothing, where a handle names
    /// no node, where a child is `parent` or one of its ancestors, and where a
    /// child has another parent or is named twice.
    pub fn set_children(&mut self, parent: NodeId, children: &[NodeId]) -> (r: Result<(), TaffyError>)
        requires
            old(self).wf(),
        ensures
            final(self).wf(),
            r == (match children_error(old(self).nodes(), parent, children@) {
                Some(e) => Err(e),
                None => Ok(()),
            }),
            r.is_err() ==> final(self).nodes() == old(self).nodes(),
            live_count(final(self).nodes()) == live_count(old(self).nodes()),
            r.is_ok() ==> same_but(old(self).nodes(), final(self).nodes(), parent.index as int) && with_children(
                old(self).nodes()[parent.index as int],
                final(self).nodes()[parent.index as int],
                children@,
            ),
            final(self).layouts() == old(self).layouts(),
            final(self).max_depth() == old(self).max_depth(),
    {
        let mut cs: Vec<NodeId> = Vec::new();
        let mut i: usize = 0;
        while i < children.len()
            invariant
                i <= children@.len(),
                cs@ == children@.take(i as int),
            decreases children@.len() - i,
        {
            cs.push(children[i]);
            i += 1;
            proof {
                assert(cs@ =~= children@.take(i as int));
            }
        }
        proof {
            assert(cs@ =~= children@);
        }
        match check_children(&self.nodes, parent, &cs) {
            Some(e) => Err(e),
            None => {
                self.attach(parent, cs);
                Ok(())
            },
        }
    }

    /// Replaces the children of `p`, which `check_children` accepted.
    fn attach(&mut self, p: NodeId, cs: Vec<NodeId>)
        requires
            old(self).wf(),
            children_error(old(self).nodes@, p, cs@).is_none(),
        ensures
            final(self).wf(),
            same_but(old(self).nodes@, final(self).nodes@, p.index as int),
            with_children(old(self).nodes@[p.index as int], final(self).nodes@[p.index as int], cs@),
            live_count(final(self).nodes@) == live_count(old(self).nodes@),
            final(self).layouts@ == old(self).layouts@,
            final(self).max_depth == old(self).max_depth,
    {
        let n = self.nodes.len();
        let ghost on = self.nodes@;
        let ghost pi = p.index as int;
        let slot = put(&mut self.nodes, p.index, Slot { generation: 0, data: None });
        let d = slot.data.unwrap();
        let new_slot = Slot {
            generation: slot.generation,
            data: Some(NodeData { style: d.style, children: cs, content: d.content }),
        };
        put(&mut self.nodes, p.index, new_slot);
        proof {
            let nn = self.nodes@;
            assert(nn == on.update(pi, new_slot));
            lemma_live_count_update(on, pi, new_slot);
            assert(forall|i: int| 0 <= i < cs@.len() ==> valid(on, #[trigger] cs@[i]));
            assert(ancestry(on, p, on.len()).contains(p)) by {
                assert(ancestry(on, p, on.len())[0] == p);
            }
            assert forall|i: int| #![trigger nn[i]] 0 <= i < nn.len() implies nn[i].generation == on[i].generation
                && nn[i].data.is_some() == on[i].data.is_some() by {}
            assert forall|c: NodeId| valid(on, c) implies valid(nn, c) by {}
            assert forall|i: int, k: int|
                live(nn, i) && 0 <= k < nn[i].data.unwrap().children@.len() implies valid(
                nn,
                #[trigger] nn[i].data.unwrap().children@[k],
            ) by {
                if i == pi {
                    assert(valid(on, cs@[k]));
                } else {
                    assert(valid(on, on[i].data.unwrap().children@[k]));
                }
            }
            assert forall|i: int, j: int, k: int, l: int|
                live(nn, i) && live(nn, j) && 0 <= k < nn[i].data.unwrap().children@.len() && 0 <= l
                    < nn[j].data.unwrap().children@.len() && #[trigger] nn[i].data.unwrap().children@[k]
                    == #[trigger] nn[j].data.unwrap().children@[l] implies i == j && k == l by {
                if i == pi && j == pi {
                    if k < l {
                        assert(cs@[k] == cs@[l]);
                    } else if l < k {
                        assert(cs@[l] == cs@[k]);
                    }
                } else if i == pi || j == pi {
                    let (a, ka, b, lb) = if i == pi { (i, k, j, l) } else { (j, l, i, k) };
                    let c = cs@[ka];
                    assert(nn[b].data.unwrap().children@[lb] == c);
                    assert(is_parent(on, b, c)) by {
                        assert(on[b].data.unwrap().children@[lb] == c);
                    }
                    let q = choose|q: int| is_parent(on, q, c);
                    let lq = choose|x: int| 0 <= x < on[q].data.unwrap().children@.len() && on[q].data.unwrap().children@[x] == c;
                    assert(on[q].data.unwrap().children@[lq] == on[b].data.unwrap().children@[lb]);
                    assert(q == b);
                    assert(parent_of(on, c) == Some(id_at(on, b)));
                    assert(0 <= b < n && b != pi);
                    assert(id_at(on, b).index != p.index);
                } else {
                    assert(nn[i] == on[i] && nn[j] == on[j]);
                }
            }
            assert forall|i: int, k: int|
                live(nn, i) && 0 <= k < nn[i].data.unwrap().children@.len()
                    implies #[trigger] nn[i].data.unwrap().children@[k].index != i by {
                if i == pi {
                    let c = cs@[k];
                    assert(valid(on, c));
                    if c.index == pi {
                        assert(c == p);
                        assert(ancestry(on, p, on.len()).contains(c));
                    }
                } else {
                    assert(nn[i] == on[i]);
                }
            }
        }
        self.clear_caches();
    }
}

/// The size the root of a layout takes.
pub open spec fn root_size(nodes: Seq<Slot>, root: NodeId, avail: Size<AvailableSpace>, depth: u32) -> Size<u32> {
    node_size(nodes, root, unknown(), avail, depth as nat).unwrap()
}

impl TaffyTree {
    /// Lays out the tree below `root`, offered `avail`. The root is put at
    /// the origin at the size it takes; each node below it is put where its
    /// parent's layout algorithm puts it. Fails where `root` names no node, and
    /// where the tree below it is deeper than the depth limit; a failed call
    /// changes no layout. A successful one makes exactly the writes of
    /// `layout_log`, which depend on the nodes, the root, `avail` and the
    /// depth limit alone.
    pub fn compute_layout(&mut self, root: NodeId, avail: Size<AvailableSpace>) -> (r: Result<(), TaffyError>)
        requires
            old(self).wf(),
        ensures
            final(self).wf(),
            final(self).nodes() == old(self).nodes(),
            final(self).max_depth() == old(self).max_depth(),
            !valid(old(self).nodes(), root) ==> r == Err::<(), TaffyError>(TaffyError::InvalidNodeHandle),
            valid(old(self).nodes(), root) && !depth_ok(old(self).nodes(), root, old(self).max_depth() as nat)
                ==> r == Err::<(), TaffyError>(TaffyError::DepthLimitExceeded),
            r.is_ok() == (valid(old(self).nodes(), root) && depth_ok(
                old(self).nodes(),
                root,
                old(self).max_depth() as nat,
            )),
            r.is_err() ==> final(self).layouts() == old(self).layouts(),
            r.is_ok() ==> final(self).layouts() == apply_writes(
                old(self).layouts(),
                layout_log(old(self).nodes(), root, avail, old(self).max_depth()),
            ),
            r.is_ok() ==> final(self).layouts()[root.index as int] == (Layout {
                x: 0,
                y: 0,
                size: root_size(old(self).nodes(), root, avail, old(self).max_depth()),
            }),
            r.is_ok() && style_of(old(self).nodes(), root).display != Display::Hidden ==> forall|k: int|
                0 <= k < kids(old(self).nodes(), root).len() ==> final(self).layouts()[kids(
                    old(self).nodes(),
                    root,
                )[k].index as int] == placement(
                    old(self).nodes(),
                    root,
                    root_size(old(self).nodes(), root, avail, old(self).max_depth()),
                    old(self).max_depth() as nat,
                ).unwrap()[k],
    {
        if !is_live(&self.nodes, root) {
            return Err(TaffyError::InvalidNodeHandle);
        }
        let fuel = self.max_depth;
        proof {
            lemma_size_iff_depth(self.nodes@, root, unknown(), avail, fuel as nat);
        }
        match measure(&self.nodes, &mut self.caches, root, Size { width: None, height: None }, avail, fuel) {
            None => Err(TaffyError::DepthLimitExceeded),
            Some(z) => {
                let ghost l0 = self.layouts@;
                place(&self.nodes, &mut self.caches, &mut self.layouts, root, z, fuel);
                let ghost before = self.layouts@;
                self.layouts.set(root.index, Layout { x: 0, y: 0, size: z });
                proof {
                    let log = place_log(self.nodes@, root, z, fuel as nat);
                    let full = log.push((root.index, Layout { x: 0, y: 0, size: z }));
                    lemma_apply_len(l0, log);
                    assert(full.drop_last() =~= log);
                    assert(self.layouts@ == apply_writes(l0, full));
                }
                proof {
                    let ks = kids(self.nodes@, root);
                    assert forall|k: int| 0 <= k < ks.len() implies ks[k].index != root.index by {
                        let ri = root.index as int;
                        assert(self.nodes@[ri].data.unwrap().children@[k].index != ri);
                    }
                }
                Ok(())
            },
        }
    }

    /// The layout of a node as the last successful computation left it.
    pub fn layout(&self, node: NodeId) -> (r: Result<Layout, TaffyError>)
        requires
            self.wf(),
        ensures
            valid(self.nodes(), node) ==> r == Ok::<Layout, TaffyError>(self.layouts()[node.index as int]),
            !valid(self.nodes(), node) ==> r == Err::<Layout, TaffyError>(TaffyError::InvalidNodeHandle),
    {
        if !is_live(&self.nodes, node) {
            return Err(TaffyError::InvalidNodeHandle);
        }
        Ok(self.layouts[node.index])
    }

    /// The parent of a node; none for a root, or for a handle that names no node.
    pub fn parent(&self, child: NodeId) -> (r: Option<NodeId>)
        requires
            self.wf(),
        ensures
            r == (if valid(self.nodes(), child) { parent_of(self.nodes(), child) } else { None }),
    {
        if !is_live(&self.nodes, child) {
            return None;
        }
        find_parent(&self.nodes, child)
    }

    /// The children of a node, in order.
    pub fn children(&self, parent: NodeId) -> (r: Result<Vec<NodeId>, TaffyError>)
        requires
            self.wf(),
        ensures
            valid(self.nodes(), parent) ==> r.is_ok() && r.unwrap()@ == kids(self.nodes(), parent),
            !valid(self.nodes(), parent) ==> r == Err::<Vec<NodeId>, TaffyError>(TaffyError::InvalidNodeHandle),
    {
        if !is_live(&self.nodes, parent) {
            return Err(TaffyError::InvalidNodeHandle);
        }
        let ks = &self.nodes[parent.index].data.as_ref().unwrap().children;
        let mut out: Vec<NodeId> = Vec::new();
        let mut i: usize = 0;
        while i < ks.len()
            invariant
                i <= ks.len(),
                out@ == ks@.take(i as int),
            decreases ks.len() - i,
        {
            out.push(ks[i]);
            i += 1;
            proof {
                assert(out@ =~= ks@.take(i as int));
            }
        }
        proof {
            assert(out@ =~= ks@);
        }
        Ok(out)
    }

    /// The style of a node.
    pub fn style(&self, node: NodeId) -> (r: Result<&Style, TaffyError>)
        requires
            self.wf(),
        ensures
            valid(self.nodes(), node) ==> r.is_ok() && *r.unwrap() == style_of(self.nodes(), node),
            !valid(self.nodes(), node) ==> r.is_err() && r.unwrap_err() == TaffyError::InvalidNodeHandle,
    {
        if !is_live(&self.nodes, node) {
            return Err(TaffyError::InvalidNodeHandle);
        }
        Ok(&self.nodes[node.index].data.as_ref().unwrap().style)
    }

    /// Replaces the style or the content of a live node, keeping its children.
    fn replace_data(&mut self, node: NodeId, style: Option<Style>, content: Option<Size<u32>>)
        requires
            old(self).wf(),
            valid(old(self).nodes@, node),
        ensures
            final(self).wf(),
            same_but(old(self).nodes@, final(self).nodes@, node.index as int),
            valid(final(self).nodes@, node),
            style_of(final(self).nodes@, node) == (match style {
                Some(s) => s,
                None => style_of(old(self).nodes@, node),
            }),
            content_of(final(self).nodes@, node) == (match content {
                Some(c) => c,
                None => content_of(old(self).nodes@, node),
            }),
            kids(final(self).nodes@, node) == kids(old(self).nodes@, node),
            final(self).layouts@ == old(self).layouts@,
            final(self).max_depth == old(self).max_depth,
    {
        let ghost on = self.nodes@;
        let slot = put(&mut self.nodes, node.index, Slot { generation: 0, data: None });
        let d = slot.data.unwrap();
        let style = match style {
            Some(s) => s,
            None => d.style,
        };
        let content = match content {
            Some(c) => c,
            None => d.content,
        };
        put(
            &mut self.nodes,
            node.index,
            Slot { generation: slot.generation, data: Some(NodeData { style, children: d.children, content }) },
        );
        proof {
            let nn = self.nodes@;
            assert forall|i: int| #![trigger nn[i]] 0 <= i < nn.len() implies nn[i].generation == on[i].generation
                && nn[i].data.is_some() == on[i].data.is_some() && nn[i].data.is_some() ==> nn[i].data.unwrap().children@
                == on[i].data.unwrap().children@ by {}
            assert forall|c: NodeId| valid(on, c) implies valid(nn, c) by {}
            assert forall|i: int, k: int|
                live(nn, i) && 0 <= k < nn[i].data.unwrap().children@.len() implies valid(
                nn,
                #[trigger] nn[i].data.unwrap().children@[k],
            ) by {
                assert(valid(on, on[i].data.unwrap().children@[k]));
            }
            assert forall|i: int, j: int, k: int, l: int|
                live(nn, i) && live(nn, j) && 0 <= k < nn[i].data.unwrap().children@.len() && 0 <= l
                    < nn[j].data.unwrap().children@.len() && #[trigger] nn[i].data.unwrap().children@[k]
                    == #[trigger] nn[j].data.unwrap().children@[l] implies i == j && k == l by {
                assert(on[i].data.unwrap().children@[k] == on[j].data.unwrap().children@[l]);
            }
            assert forall|i: int, k: int|
                live(nn, i) && 0 <= k < nn[i].data.unwrap().children@.len()
                    implies #[trigger] nn[i].data.unwrap().children@[k].index != i by {
                assert(on[i].data.unwrap().children@[k].index != i);
            }
        }
        self.clear_caches();
    }

    /// Replaces the style of a node.
    pub fn set_style(&mut self, node: NodeId, style: Style) -> (r: Result<(), TaffyError>)
        requires
            old(self).wf(),
        ensures
            final(self).wf(),
            valid(old(self).nodes(), node) ==> r.is_ok() && same_but(
                old(self).nodes(),
                final(self).nodes(),
                node.index as int,
            ) && valid(final(self).nodes(), node) && style_of(final(self).nodes(), node) == style && content_of(
                final(self).nodes(),
                node,
            ) == content_of(old(self).nodes(), node) && kids(final(self).nodes(), node) == kids(
                old(self).nodes(),
                node,
            ),
            !valid(old(self).nodes(), node) ==> r == Err::<(), TaffyError>(TaffyError::InvalidNodeHandle)
                && final(self).nodes() == old(self).nodes(),
            final(self).layouts() == old(self).layouts(),
            final(self).max_depth() == old(self).max_depth(),
    {
        if !is_live(&self.nodes, node) {
            return Err(TaffyError::InvalidNodeHandle);
        }
        self.replace_data(node, Some(style), None);
        Ok(())
    }

    /// Sets the size of a node's own content, which sizes it while it has no
    /// children: the measurement of its text or image.
    pub fn set_content_size(&mut self, node: NodeId, content: Size<u32>) -> (r: Result<(), TaffyError>)
        requires
            old(self).wf(),
        ensures
            final(self).wf(),
            valid(old(self).nodes(), node) ==> r.is_ok() && same_but(
                old(self).nodes(),
                final(self).nodes(),
                node.index as int,
            ) && valid(final(self).nodes(), node) && style_of(final(self).nodes(), node) == style_of(
                old(self).nodes(),
                node,
            ) && content_of(final(self).nodes(), node) == content && kids(final(self).nodes(), node) == kids(
                old(self).nodes(),
                node,
            ),
            !valid(old(self).nodes(), node) ==> r == Err::<(), TaffyError>(TaffyError::InvalidNodeHandle)
                && final(self).nodes() == old(self).nodes(),
            final(self).layouts() == old(self).layouts(),
            final(self).max_depth() == old(self).max_depth(),
    {
        if !is_live(&self.nodes, node) {
            return Err(TaffyError::InvalidNodeHandle);
        }
        self.replace_data(node, None, Some(content));
        Ok(())
    }
}

/// Where entry `k` of list `i` was before entry `kq` of list `pi` was taken out.
spec fn src_pos(i: int, k: int, pi: int, kq: int) -> int {
    if i == pi && k >= kq { k + 1 } else { k }
}

/// Where `c` stands among the children.
fn position(cs: &Vec<NodeId>, c: NodeId) -> (r: usize)
    requires
        cs@.contains(c),
    ensures
        r < cs@.len(),
        cs@[r as int] == c,
{
    let mut k: usize = 0;
    while k < cs.len()
        invariant
            k <= cs.len(),
            cs@.contains(c),
            forall|m: int| 0 <= m < k ==> cs@[m] != c,
        decreases cs.len() - k,
    {
        if cs[k] == c {
            return k;
        }
        k += 1;
    }
    proof {
        let m = choose|m: int| 0 <= m < cs@.len() && cs@[m] == c;
        assert(cs@[m] == c);
    }
    0
}

impl TaffyTree {
    /// Removes a node that has no children, detaching it from its parent.
    /// Fails, changing nothing, where the handle names no node or the node
    /// still has children.
    pub fn remove(&mut self, node: NodeId) -> (r: Result<NodeId, TaffyError>)
        requires
            old(self).wf(),
        ensures
            final(self).wf(),
            !valid(old(self).nodes(), node) ==> r == Err::<NodeId, TaffyError>(TaffyError::InvalidNodeHandle),
            valid(old(self).nodes(), node) && kids(old(self).nodes(), node).len() > 0 ==> r == Err::<
                NodeId,
                TaffyError,
            >(TaffyError::NodeHasChildren),
            r.is_err() ==> final(self).nodes() == old(self).nodes(),
            r.is_ok() ==> r == Ok::<NodeId, TaffyError>(node),
            r.is_ok() ==> {
                let on = old(self).nodes();
                let nn = final(self).nodes();
                &&& valid(on, node)
                &&& kids(on, node).len() == 0
                &&& !valid(nn, node)
                &&& nn.len() == on.len()
                &&& nn[node.index as int].generation == on[node.index as int].generation
                &&& forall|j: int|
                    0 <= j < on.len() && j != node.index && !(parent_of(on, node).is_some() && j == parent_of(
                        on,
                        node,
                    ).unwrap().index) ==> nn[j] == on[j]
                &&& parent_of(on, node).is_some() ==> {
                    let q = parent_of(on, node).unwrap();
                    let qi = q.index as int;
                    &&& nn[qi].generation == on[qi].generation
                    &&& nn[qi].data.is_some()
                    &&& nn[qi].data.unwrap().style == on[qi].data.unwrap().style
                    &&& nn[qi].data.unwrap().content == on[qi].data.unwrap().content
                    &&& exists|k: int|
                        0 <= k < kids(on, q).len() && kids(on, q)[k] == node && nn[qi].data.unwrap().children@
                            == kids(on, q).remove(k)
                }
            },
            final(self).layouts() == old(self).layouts(),
            final(self).max_depth() == old(self).max_depth(),
    {
        if !is_live(&self.nodes, node) {
            return Err(TaffyError::InvalidNodeHandle);
        }
        if self.nodes[node.index].data.as_ref().unwrap().children.len() > 0 {
            return Err(TaffyError::NodeHasChildren);
        }
        let n = self.nodes.len();
        let ghost on = self.nodes@;
        let ghost ni = node.index as int;
        let parent = find_parent(&self.nodes, node);
        let ghost mut kq: int = 0;
        match parent {
            Some(q) => {
                proof {
                    let qi = choose|i: int| is_parent(on, i, node);
                    assert(is_parent(on, qi, node));
                    assert(q.index as int == qi);
                }
                let slot = put(&mut self.nodes, q.index, Slot { generation: 0, data: None });
                let d = slot.data.unwrap();
                let mut cs = d.children;
                let k = position(&cs, node);
                proof {
                    kq = k as int;
                    assert(on[q.index as int].data.unwrap().children@[kq].index != q.index);
                }
                let ghost before = cs@;
                cs.remove(k);
                assert(cs@ == before.remove(kq));
                put(
                    &mut self.nodes,
                    q.index,
                    Slot {
                        generation: slot.generation,
                        data: Some(NodeData { style: d.style, children: cs, content: d.content }),
                    },
                );
            },
            None => {},
        }
        let gen = self.nodes[node.index].generation;
        put(&mut self.nodes, node.index, Slot { generation: gen, data: None });
        proof {
            let nn = self.nodes@;
            assert(nn.len() == n);
            assert forall|i: int| #![trigger nn[i]] 0 <= i < nn.len() && i != ni implies nn[i].generation
                == on[i].generation && nn[i].data.is_some() == on[i].data.is_some() by {}
            let pi: int = if parent.is_some() { parent.unwrap().index as int } else { -1 };
            if parent.is_some() {
                let q = parent.unwrap();
                assert(q.index != node.index);
                assert(q == parent_of(on, node).unwrap());
                assert(kids(on, q)[kq] == node);
                assert(nn[pi].data.unwrap().children@ == kids(on, q).remove(kq));
            }
            assert forall|i: int, k: int|
                live(nn, i) && 0 <= k < nn[i].data.unwrap().children@.len() implies 0 <= #[trigger] src_pos(i, k, pi, kq)
                < on[i].data.unwrap().children@.len() && on[i].data.unwrap().children@[src_pos(i, k, pi, kq)]
                == nn[i].data.unwrap().children@[k] && (i == pi ==> src_pos(i, k, pi, kq) != kq) by {
                if i == pi {
                    if k < kq {
                        assert(on[i].data.unwrap().children@[k] == nn[i].data.unwrap().children@[k]);
                    } else {
                        assert(on[i].data.unwrap().children@[k + 1] == nn[i].data.unwrap().children@[k]);
                    }
                } else {
                    assert(on[i] == nn[i]);
                }
            }
            assert forall|i: int, k: int|
                live(nn, i) && 0 <= k < nn[i].data.unwrap().children@.len() implies valid(
                nn,
                #[trigger] nn[i].data.unwrap().children@[k],
            ) by {
                let c = nn[i].data.unwrap().children@[k];
                let k2 = src_pos(i, k, pi, kq);
                assert(on[i].data.unwrap().children@[k2] == c);
                assert(valid(on, on[i].data.unwrap().children@[k2]));
                if c.index as int == ni {
                    assert(c == node);
                    assert(is_parent(on, i, node));
                    if i == pi {
                        assert(on[i].data.unwrap().children@[k2] == on[i].data.unwrap().children@[kq]);
                    } else {
                        assert(parent_of(on, node).is_some());
                        let qi = choose|x: int| is_parent(on, x, node);
                        let lq = choose|x: int| 0 <= x < on[qi].data.unwrap().children@.len() && on[qi].data.unwrap().children@[x] == node;
                        assert(on[qi].data.unwrap().children@[lq] == on[i].data.unwrap().children@[k2]);
                    }
                }
            }
            assert forall|i: int, j: int, k: int, l: int|
                live(nn, i) && live(nn, j) && 0 <= k < nn[i].data.unwrap().children@.len() && 0 <= l
                    < nn[j].data.unwrap().children@.len() && #[trigger] nn[i].data.unwrap().children@[k]
                    == #[trigger] nn[j].data.unwrap().children@[l] implies i == j && k == l by {
                let k2 = src_pos(i, k, pi, kq);
                let l2 = src_pos(j, l, pi, kq);
                assert(on[i].data.unwrap().children@[k2] == on[j].data.unwrap().children@[l2]);
            }
            assert forall|i: int, k: int|
                live(nn, i) && 0 <= k < nn[i].data.unwrap().children@.len()
                    implies #[trigger] nn[i].data.unwrap().children@[k].index != i by {
                let k2 = src_pos(i, k, pi, kq);
                assert(on[i].data.unwrap().children@[k2].index != i);
            }
        }
        self.clear_caches();
        Ok(node)
    }
}

/// Why `cs` cannot become the children of a new node, if it cannot: a handle
/// that names no node; a child that has a parent or is named twice.
pub open spec fn fresh_children_error(nodes: Seq<Slot>, cs: Seq<NodeId>) -> Option<TaffyError> {
    if exists|i: int| 0 <= i < cs.len() && !valid(nodes, #[trigger] cs[i]) {
        Some(TaffyError::InvalidNodeHandle)
    } else if exists|i: int| 0 <= i < cs.len() && (#[trigger] parent_of(nodes, cs[i])).is_some() {
        Some(TaffyError::ChildAlreadyParented)
    } else if exists|i: int, j: int| 0 <= i < j < cs.len() && #[trigger] cs[i] == #[trigger] cs[j] {
        Some(TaffyError::ChildAlreadyParented)
    } else {
        None
    }
}

fn check_fresh(nodes: &Vec<Slot>, cs: &Vec<NodeId>) -> (r: Option<TaffyError>)
    requires
        arena_wf(nodes@),
    ensures
        r == fresh_children_error(nodes@, cs@),
{
    let mut i: usize = 0;
    while i < cs.len()
        invariant
            i <= cs.len(),
            forall|m: int| 0 <= m < i ==> valid(nodes@, #[trigger] cs@[m]),
        decreases cs.len() - i,
    {
        if !is_live(nodes, cs[i]) {
            return Some(TaffyError::InvalidNodeHandle);
        }
        i += 1;
    }
    let mut i: usize = 0;
    while i < cs.len()
        invariant
            arena_wf(nodes@),
            forall|m: int| 0 <= m < cs.len() ==> valid(nodes@, #[trigger] cs@[m]),
            i <= cs.len(),
            forall|m: int| 0 <= m < i ==> (#[trigger] parent_of(nodes@, cs@[m])).is_none(),
        decreases cs.len() - i,
    {
        if find_parent(nodes, cs[i]).is_some() {
            return Some(TaffyError::ChildAlreadyParented);
        }
        i += 1;
    }
    let mut i: usize = 0;
    while i < cs.len()
        invariant
            forall|m: int| 0 <= m < cs.len() ==> valid(nodes@, #[trigger] cs@[m]),
            forall|m: int| 0 <= m < cs.len() ==> (#[trigger] parent_of(nodes@, cs@[m])).is_none(),
            i <= cs.len(),
            forall|a: int, b: int| 0 <= a < b < cs.len() && a < i ==> #[trigger] cs@[a] != #[trigger] cs@[b],
        decreases cs.len() - i,
    {
        let mut j: usize = i + 1;
        while j < cs.len()
            invariant
                forall|m: int| 0 <= m < cs.len() ==> valid(nodes@, #[trigger] cs@[m]),
                forall|m: int| 0 <= m < cs.len() ==> (#[trigger] parent_of(nodes@, cs@[m])).is_none(),
                i < cs.len(),
                i + 1 <= j <= cs.len(),
                forall|a: int, b: int| 0 <= a < b < cs.len() && a < i ==> #[trigger] cs@[a] != #[trigger] cs@[b],
                forall|b: int| i < b < j ==> cs@[i as int] != #[trigger] cs@[b],
            decreases cs.len() - j,
        {
            if cs[i] == cs[j] {
                proof {
                    assert(cs@[i as int] == cs@[j as int]);
                }
                return Some(TaffyError::ChildAlreadyParented);
            }
            j += 1;
        }
        i += 1;
    }
    None
}

/// A node just added, with no children, is no one's child and has no
/// ancestors; the children that a new node may take are then acceptable to it.
proof fn lemma_fresh_parent(on: Seq<Slot>, nn: Seq<Slot>, id: NodeId, cs: Seq<NodeId>)
    requires
        arena_wf(on),
        arena_wf(nn),
        !valid(on, id),
        id.index >= on.len() || on[id.index as int].data.is_none(),
        valid(nn, id),
        nn[id.index as int].data.unwrap().children@.len() == 0,
        nn.len() >= on.len(),
        forall|j: int| 0 <= j < on.len() && j != id.index ==> nn[j] == on[j],
        nn.len() == on.len() || (nn.len() == on.len() + 1 && id.index == on.len()),
        fresh_children_error(on, cs).is_none(),
    ensures
        children_error(nn, id, cs).is_none(),
{
    assert forall|i: int| #![trigger is_parent(nn, i, id)] !is_parent(nn, i, id) by {
        if is_parent(nn, i, id) {
            assert(i != id.index);
            assert(nn[i] == on[i]);
            let k = choose|k: int| 0 <= k < on[i].data.unwrap().children@.len() && on[i].data.unwrap().children@[k] == id;
            assert(valid(on, on[i].data.unwrap().children@[k]));
        }
    }
    assert(parent_of(nn, id).is_none());
    assert(ancestry(nn, id, nn.len()) == seq![id]);
    assert forall|m: int| 0 <= m < cs.len() implies valid(nn, #[trigger] cs[m]) && cs[m] != id && parent_of(nn, cs[m]).is_none() by {
        assert(valid(on, cs[m]));
        assert(cs[m].index < on.len());
        if cs[m].index == id.index {
            assert(on[id.index as int].data.is_some());
        }
        assert(nn[cs[m].index as int] == on[cs[m].index as int]);
        assert(parent_of(on, cs[m]).is_none());
        assert forall|i: int| #![trigger is_parent(nn, i, cs[m])] !is_parent(nn, i, cs[m]) by {
            if is_parent(nn, i, cs[m]) {
                assert(i != id.index);
                assert(nn[i] == on[i]);
                assert(is_parent(on, i, cs[m]));
            }
        }
    }
    assert forall|m: int| 0 <= m < cs.len() implies !ancestry(nn, id, nn.len()).contains(#[trigger] cs[m]) by {
        assert(cs[m] != id);
        if ancestry(nn, id, nn.len()).contains(cs[m]) {
            let x = choose|x: int| 0 <= x < 1 && seq![id][x] == cs[m];
        }
    }
}

impl TaffyTree {
    /// Adds a node with the given style and children. Fails, changing
    /// nothing, where a child names no node, has a parent, or is named twice.
    pub fn new_with_children(&mut self, style: Style, children: &[NodeId]) -> (r: Result<NodeId, TaffyError>)
        requires
            old(self).wf(),
        ensures
            final(self).wf(),
            r.is_err() ==> final(self).nodes() == old(self).nodes() && Some(r.unwrap_err()) == fresh_children_error(
                old(self).nodes(),
                children@,
            ),
            r.is_ok() == fresh_children_error(old(self).nodes(), children@).is_none(),
            r.is_ok() ==> {
                let id = r.unwrap();
                &&& !valid(old(self).nodes(), id)
                &&& valid(final(self).nodes(), id)
                &&& style_of(final(self).nodes(), id) == style
                &&& kids(final(self).nodes(), id) == children@
                &&& content_of(final(self).nodes(), id) == (Size { width: 0u32, height: 0u32 })
                &&& final(self).nodes().len() >= old(self).nodes().len()
                &&& forall|j: int|
                    0 <= j < old(self).nodes().len() && j != id.index ==> final(self).nodes()[j] == old(
                        self,
                    ).nodes()[j]
            },
            final(self).max_depth() == old(self).max_depth(),
    {
        let mut cs: Vec<NodeId> = Vec::new();
        let mut i: usize = 0;
        while i < children.len()
            invariant
                i <= children@.len(),
                cs@ == children@.take(i as int),
            decreases children@.len() - i,
        {
            cs.push(children[i]);
            i += 1;
            proof {
                assert(cs@ =~= children@.take(i as int));
            }
        }
        proof {
            assert(cs@ =~= children@);
        }
        if let Some(e) = check_fresh(&self.nodes, &cs) {
            return Err(e);
        }
        let ghost on = self.nodes@;
        let id = match self.new_leaf(style) {
            Ok(id) => id,
            Err(e) => {
                return Err(e);
            },
        };
        proof {
            lemma_fresh_parent(on, self.nodes@, id, cs@);
        }
        self.attach(id, cs);
        Ok(id)
    }
}

/// `b` extends `a`: every live node of `a` is unchanged in `b`, and the nodes
/// that `b` adds have as children only nodes that `a` does not hold.
pub open spec fn extends(a: Seq<Slot>, b: Seq<Slot>) -> bool {
    &&& b.len() >= a.len()
    &&& forall|j: int| live(a, j) ==> #[trigger] b[j] == a[j]
    &&& forall|j: int, k: int|
        live(b, j) && !live(a, j) && 0 <= k < b[j].data.unwrap().children@.len() ==> !valid(
            a,
            #[trigger] b[j].data.unwrap().children@[k],
        )
}

pub proof fn lemma_extends_valid(a: Seq<Slot>, b: Seq<Slot>, c: NodeId)
    requires
        extends(a, b),
        valid(a, c),
    ensures
        valid(b, c),
{
    assert(live(a, c.index as int));
    assert(b[c.index as int] == a[c.index as int]);
}

pub proof fn lemma_extends_trans(a: Seq<Slot>, b: Seq<Slot>, c: Seq<Slot>)
    requires
        extends(a, b),
        extends(b, c),
    ensures
        extends(a, c),
{
    assert forall|j: int| live(a, j) implies #[trigger] c[j] == a[j] by {
        assert(b[j] == a[j]);
        assert(live(b, j));
    }
    assert forall|j: int, k: int|
        live(c, j) && !live(a, j) && 0 <= k < c[j].data.unwrap().children@.len() implies !valid(
        a,
        #[trigger] c[j].data.unwrap().children@[k],
    ) by {
        let x = c[j].data.unwrap().children@[k];
        if live(b, j) {
            assert(c[j] == b[j]);
            assert(!valid(a, b[j].data.unwrap().children@[k]));
        } else {
            assert(!valid(b, x));
            if valid(a, x) {
                lemma_extends_valid(a, b, x);
            }
        }
    }
}

/// Growing a tree leaves the parent of each node it held unchanged.
pub proof fn lemma_extends_parent(a: Seq<Slot>, b: Seq<Slot>, c: NodeId)
    requires
        arena_wf(a),
        arena_wf(b),
        extends(a, b),
        valid(a, c),
    ensures
        parent_of(b, c) == parent_of(a, c),
{
    assert forall|i: int| #[trigger] is_parent(b, i, c) == is_parent(a, i, c) by {
        if is_parent(a, i, c) {
            assert(b[i] == a[i]);
        }
        if is_parent(b, i, c) && !live(a, i) {
            let k = choose|k: int| 0 <= k < b[i].data.unwrap().children@.len() && b[i].data.unwrap().children@[k] == c;
            assert(!valid(a, b[i].data.unwrap().children@[k]));
        }
        if is_parent(b, i, c) && live(a, i) {
            assert(b[i] == a[i]);
        }
    }
    if exists|i: int| is_parent(a, i, c) {
        let ia = choose|i: int| is_parent(a, i, c);
        assert(is_parent(b, ia, c) == is_parent(a, ia, c));
        assert(is_parent(b, ia, c));
        let ib = choose|i: int| is_parent(b, i, c);
        assert(is_parent(b, ib, c));
        assert(is_parent(b, ib, c) == is_parent(a, ib, c));
        assert(is_parent(a, ib, c));
        let ka = choose|k: int| 0 <= k < a[ia].data.unwrap().children@.len() && a[ia].data.unwrap().children@[k] == c;
        let kb = choose|k: int| 0 <= k < a[ib].data.unwrap().children@.len() && a[ib].data.unwrap().children@[k] == c;
        assert(a[ia].data.unwrap().children@[ka] == a[ib].data.unwrap().children@[kb]);
        assert(ia == ib);
        assert(b[ib] == a[ib]);
    } else {
        assert forall|i: int| !is_parent(b, i, c) by {
            assert(is_parent(b, i, c) == is_parent(a, i, c));
        }
    }
}

/// A node that no live node lists as a child has no parent and no ancestors.
pub proof fn lemma_root_ancestry(a: Seq<Slot>, n: NodeId)
    requires
        parent_of(a, n).is_none(),
        a.len() > 0,
    ensures
        ancestry(a, n, a.len()) == seq![n],
{
}

} // verus!
