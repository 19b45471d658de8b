use vstd::prelude::*;
use vstd::cell::invcell::InvCell;
use vstd::predicate::Predicate;
use std::rc::Rc;
use crate::geometry::{Dimension, Rect, Size};
use crate::node::{live_count, ancestry, kids, live, parent_of, style_of, valid, NodeId, Slot, TaffyError};
use crate::style::{
    both, copy_tracks, edges, AlignItems, AspectRatio, Display, FlexDirection, GridTrack, JustifyContent, Style,
};
use crate::tree::{
    children_error, extends, lemma_extends_parent, lemma_extends_trans, lemma_extends_valid, lemma_root_ancestry,
    TaffyTree,
};

verus! {

/// Any node id may be stored in a handle.
pub struct AnyNode;

impl Predicate<Option<NodeId>> for AnyNode {
    open spec fn predicate(&self, v: Option<NodeId>) -> bool {
        true
    }
}

/// A shared slot that receives the id of the node a builder makes. Clones
/// share the slot, so the caller keeps one and hands another to the builder.
#[derive(Clone)]
pub struct RefHandle(Rc<InvCell<Option<NodeId>, AnyNode>>);

impl RefHandle {
    /// An empty handle.
    pub fn new() -> Self {
        RefHandle(Rc::new(InvCell::new(None, Ghost(AnyNode))))
    }

    fn set(&self, node_id: NodeId) {
        self.0.set(Some(node_id))
    }

    /// The id last stored through any clone of the handle, if any. The slot is
    /// shared, so nothing is known of it here.
    pub fn get(&self) -> Option<NodeId> {
        self.0.get()
    }
}

/// Builds a style field by field, and a tree of nodes from a tree of builders.
pub struct StyleBuilder<'a> {
    pub children: Vec<&'a StyleBuilder<'a>>,
    pub ref_handle: Option<RefHandle>,
    pub display: Option<Display>,
    pub size: Option<Size<Dimension>>,
    pub min_size: Option<Size<Dimension>>,
    pub max_size: Option<Size<Dimension>>,
    pub margin: Option<Rect<u32>>,
    pub padding: Option<Rect<u32>>,
    pub border: Option<Rect<u32>>,
    pub aspect_ratio: Option<Option<AspectRatio>>,
    pub flex_direction: Option<FlexDirection>,
    pub justify_content: Option<JustifyContent>,
    pub align_items: Option<AlignItems>,
    pub align_self: Option<Option<AlignItems>>,
    pub flex_basis: Option<Dimension>,
    pub flex_grow: Option<u32>,
    pub flex_shrink: Option<u32>,
    pub gap: Option<Size<u32>>,
    pub grid_template_columns: Option<Vec<GridTrack>>,
    pub grid_template_rows: Option<Vec<GridTrack>>,
}

/// The value set, else the default.
pub open spec fn or_default<T>(v: Option<T>, d: T) -> T {
    match v {
        Some(x) => x,
        None => d,
    }
}

impl<'a> StyleBuilder<'a> {
    /// The style holds each field that was set, and the default for the rest.
    pub open spec fn describes(&self, s: Style) -> bool {
        &&& s.display == or_default(self.display, Display::Flex)
        &&& s.size == or_default(self.size, both(Dimension::Auto))
        &&& s.min_size == or_default(self.min_size, both(Dimension::Auto))
        &&& s.max_size == or_default(self.max_size, both(Dimension::Auto))
        &&& s.margin == or_default(self.margin, edges(0u32))
        &&& s.padding == or_default(self.padding, edges(0u32))
        &&& s.border == or_default(self.border, edges(0u32))
        &&& s.aspect_ratio == or_default(self.aspect_ratio, None)
        &&& s.flex_direction == or_default(self.flex_direction, FlexDirection::Row)
        &&& s.justify_content == or_default(self.justify_content, JustifyContent::Start)
        &&& s.align_items == or_default(self.align_items, AlignItems::Stretch)
        &&& s.align_self == or_default(self.align_self, None)
        &&& s.flex_basis == or_default(self.flex_basis, Dimension::Auto)
        &&& s.flex_grow == or_default(self.flex_grow, 0u32)
        &&& s.flex_shrink == or_default(self.flex_shrink, 1u32)
        &&& s.gap == or_default(self.gap, both(0u32))
        &&& s.grid_template_columns@ == match self.grid_template_columns {
            Some(v) => v@,
            None => Seq::<GridTrack>::empty(),
        }
        &&& s.grid_template_rows@ == match self.grid_template_rows {
            Some(v) => v@,
            None => Seq::<GridTrack>::empty(),
        }
    }

    /// Nothing set, no children, no handle.
    pub open spec fn is_empty(&self) -> bool {
        &&& self.children@.len() == 0
        &&& self.ref_handle.is_none()
        &&& self.display.is_none()
        &&& self.size.is_none()
        &&& self.min_size.is_none()
        &&& self.max_size.is_none()
        &&& self.margin.is_none()
        &&& self.padding.is_none()
        &&& self.border.is_none()
        &&& self.aspect_ratio.is_none()
        &&& self.flex_direction.is_none()
        &&& self.justify_content.is_none()
        &&& self.align_items.is_none()
        &&& self.align_self.is_none()
        &&& self.flex_basis.is_none()
        &&& self.flex_grow.is_none()
        &&& self.flex_shrink.is_none()
        &&& self.gap.is_none()
        &&& self.grid_template_columns.is_none()
        &&& self.grid_template_rows.is_none()
    }

    /// A builder with nothing set.
    pub fn new() -> (r: Self)
        ensures
            r.is_empty(),
    {
        StyleBuilder {
            children: Vec::new(),
            ref_handle: None,
            display: None,
            size: None,
            min_size: None,
            max_size: None,
            margin: None,
            padding: None,
            border: None,
            aspect_ratio: None,
            flex_direction: None,
            justify_content: None,
            align_items: None,
            align_self: None,
            flex_basis: None,
            flex_grow: None,
            flex_shrink: None,
            gap: None,
            grid_template_columns: None,
            grid_template_rows: None,
        }
    }

    /// A builder for a flex row.
    pub fn row() -> (r: Self)
        ensures
            r.flex_direction == Some(FlexDirection::Row),
            (StyleBuilder { flex_direction: None, ..r }).is_empty(),
    {
        let mut row = Self::new();
        row.flex_direction(FlexDirection::Row);
        row
    }

    /// A builder for a flex column.
    pub fn column() -> (r: Self)
        ensures
            r.flex_direction == Some(FlexDirection::Column),
            (StyleBuilder { flex_direction: None, ..r }).is_empty(),
    {
        let mut column = Self::new();
        column.flex_direction(FlexDirection::Column);
        column
    }

    /// Sets the `display` of the style.
    pub fn display(&mut self, display: Display) -> (r: &mut Self)
        ensures
            *r == (StyleBuilder { display: Some(display), ..*old(self) }),
            *final(self) == *final(r),
    {
        self.display = Some(display);
        self
    }

    /// Sets the `size` of the style.
    pub fn size(&mut self, size: Size<Dimension>) -> (r: &mut Self)
        ensures
            *r == (StyleBuilder { size: Some(size), ..*old(self) }),
            *final(self) == *final(r),
    {
        self.size = Some(size);
        self
    }

    /// Sets the `min_size` of the style.
    pub fn min_size(&mut self, min_size: Size<Dimension>) -> (r: &mut Self)
        ensures
            *r == (StyleBuilder { min_size: Some(min_size), ..*old(self) }),
            *final(self) == *final(r),
    {
        self.min_size = Some(min_size);
        self
    }

    /// Sets the `max_size` of the style.
    pub fn max_size(&mut self, max_size: Size<Dimension>) -> (r: &mut Self)
        ensures
            *r == (StyleBuilder { max_size: Some(max_size), ..*old(self) }),
            *final(self) == *final(r),
    {
        self.max_size = Some(max_size);
        self
    }

    /// Sets the `margin` of the style.
    pub fn margin(&mut self, margin: Rect<u32>) -> (r: &mut Self)
        ensures
            *r == (StyleBuilder { margin: Some(margin), ..*old(self) }),
            *final(self) == *final(r),
    {
        self.margin = Some(margin);
        self
    }

    /// Sets the `padding` of the style.
    pub fn padding(&mut self, padding: Rect<u32>) -> (r: &mut Self)
        ensures
            *r == (StyleBuilder { padding: Some(padding), ..*old(self) }),
            *final(self) == *final(r),
    {
        self.padding = Some(padding);
        self
    }

    /// Sets the `border` of the style.
    pub fn border(&mut self, border: Rect<u32>) -> (r: &mut Self)
        ensures
            *r == (StyleBuilder { border: Some(border), ..*old(self) }),
            *final(self) == *final(r),
    {
        self.border = Some(border);
        self
    }

    /// Sets the `aspect_ratio` of the style.
    pub fn aspect_ratio(&mut self, aspect_ratio: Option<AspectRatio>) -> (r: &mut Self)
        ensures
            *r == (StyleBuilder { aspect_ratio: Some(aspect_ratio), ..*old(self) }),
            *final(self) == *final(r),
    {
        self.aspect_ratio = Some(aspect_ratio);
        self
    }

    /// Sets the `flex_direction` of the style.
    pub fn flex_direction(&mut self, flex_direction: FlexDirection) -> (r: &mut Self)
        ensures
            *r == (StyleBuilder { flex_direction: Some(flex_direction), ..*old(self) }),
            *final(self) == *final(r),
    {
        self.flex_direction = Some(flex_direction);
        self
    }

    /// Sets the `justify_content` of the style.
    pub fn justify_content(&mut self, justify_content: JustifyContent) -> (r: &mut Self)
        ensures
            *r == (StyleBuilder { justify_content: Some(justify_content), ..*old(self) }),
            *final(self) == *final(r),
    {
        self.justify_content = Some(justify_content);
        self
    }

    /// Sets the `align_items` of the style.
    pub fn align_items(&mut self, align_items: AlignItems) -> (r: &mut Self)
        ensures
            *r == (StyleBuilder { align_items: Some(align_items), ..*old(self) }),
            *final(self) == *final(r),
    {
        self.align_items = Some(align_items);
        self
    }

    /// Sets the `align_self` of the style.
    pub fn align_self(&mut self, align_self: Option<AlignItems>) -> (r: &mut Self)
        ensures
            *r == (StyleBuilder { align_self: Some(align_self), ..*old(self) }),
            *final(self) == *final(r),
    {
        self.align_self = Some(align_self);
        self
    }

    /// Sets the `flex_basis` of the style.
    pub fn flex_basis(&mut self, flex_basis: Dimension) -> (r: &mut Self)
        ensures
            *r == (StyleBuilder { flex_basis: Some(flex_basis), ..*old(self) }),
            *final(self) == *final(r),
    {
        self.flex_basis = Some(flex_basis);
        self
    }

    /// Sets the `flex_grow` of the style.
    pub fn flex_grow(&mut self, flex_grow: u32) -> (r: &mut Self)
        ensures
            *r == (StyleBuilder { flex_grow: Some(flex_grow), ..*old(self) }),
            *final(self) == *final(r),
    {
        self.flex_grow = Some(flex_grow);
        self
    }

    /// Sets the `flex_shrink` of the style.
    pub fn flex_shrink(&mut self, flex_shrink: u32) -> (r: &mut Self)
        ensures
            *r == (StyleBuilder { flex_shrink: Some(flex_shrink), ..*old(self) }),
            *final(self) == *final(r),
    {
        self.flex_shrink = Some(flex_shrink);
        self
    }

    /// Sets the `gap` of the style.
    pub fn gap(&mut self, gap: Size<u32>) -> (r: &mut Self)
        ensures
            *r == (StyleBuilder { gap: Some(gap), ..*old(self) }),
            *final(self) == *final(r),
    {
        self.gap = Some(gap);
        self
    }

    /// Sets the columns of the style.
    pub fn grid_template_columns(&mut self, grid_template_columns: Vec<GridTrack>) -> (r: &mut Self)
        ensures
            *r == (StyleBuilder { grid_template_columns: Some(grid_template_columns), ..*old(self) }),
            *final(self) == *final(r),
    {
        self.grid_template_columns = Some(grid_template_columns);
        self
    }

    /// Sets the rows of the style.
    pub fn grid_template_rows(&mut self, grid_template_rows: Vec<GridTrack>) -> (r: &mut Self)
        ensures
            *r == (StyleBuilder { grid_template_rows: Some(grid_template_rows), ..*old(self) }),
            *final(self) == *final(r),
    {
        self.grid_template_rows = Some(grid_template_rows);
        self
    }

    /// Adds a child builder, after those added before.
    pub fn child(&'a mut self, style_builder: &'a StyleBuilder<'a>) -> (r: &'a mut StyleBuilder<'a>)
        ensures
            *r == (StyleBuilder { children: r.children, ..*old(self) }),
            r.children@ == old(self).children@.push(style_builder),
            *final(self) == *final(r),
    {
        self.children.push(style_builder);
        self
    }

    /// Gives the builder a handle that receives the id of the node it makes.
    pub fn handle(&'a mut self, ref_handle: RefHandle) -> (r: &'a mut StyleBuilder<'a>)
        ensures
            *r == (StyleBuilder { ref_handle: Some(ref_handle), ..*old(self) }),
            *final(self) == *final(r),
    {
        self.ref_handle = Some(ref_handle);
        self
    }

    /// The style: each field that was set, and the default for the rest.
    pub fn build_style(&self) -> (r: Style)
        ensures
            self.describes(r),
    {
        let auto = Size { width: Dimension::Auto, height: Dimension::Auto };
        let zero = Rect { left: 0u32, right: 0u32, top: 0u32, bottom: 0u32 };
        let grid_template_columns = match &self.grid_template_columns {
            Some(v) => copy_tracks(v),
            None => Vec::new(),
        };
        let grid_template_rows = match &self.grid_template_rows {
            Some(v) => copy_tracks(v),
            None => Vec::new(),
        };
        Style {
            display: match self.display {
                Some(v) => v,
                None => Display::Flex,
            },
            size: match self.size {
                Some(v) => v,
                None => auto,
            },
            min_size: match self.min_size {
                Some(v) => v,
                None => auto,
            },
            max_size: match self.max_size {
                Some(v) => v,
                None => auto,
            },
            margin: match self.margin {
                Some(v) => v,
                None => zero,
            },
            padding: match self.padding {
                Some(v) => v,
                None => zero,
            },
            border: match self.border {
                Some(v) => v,
                None => zero,
            },
            aspect_ratio: match self.aspect_ratio {
                Some(v) => v,
                None => None,
            },
            flex_direction: match self.flex_direction {
                Some(v) => v,
                None => FlexDirection::Row,
            },
            justify_content: match self.justify_content {
                Some(v) => v,
                None => JustifyContent::Start,
            },
            align_items: match self.align_items {
                Some(v) => v,
                None => AlignItems::Stretch,
            },
            align_self: match self.align_self {
                Some(v) => v,
                None => None,
            },
            flex_basis: match self.flex_basis {
                Some(v) => v,
                None => Dimension::Auto,
            },
            flex_grow: match self.flex_grow {
                Some(v) => v,
                None => 0,
            },
            flex_shrink: match self.flex_shrink {
                Some(v) => v,
                None => 1,
            },
            gap: match self.gap {
                Some(v) => v,
                None => Size { width: 0u32, height: 0u32 },
            },
            grid_template_columns,
            grid_template_rows,
        }
    }
}

impl<'a> StyleBuilder<'a> {
    /// Makes one node for this builder and for each builder below it, each
    /// with its style and its children in order, as a new tree in `tree`, and
    /// returns its root. Each handle given to a builder receives its node's id.
    /// The nodes the tree held are left as they were.
    pub fn build(&self, tree: &mut TaffyTree) -> (r: Result<NodeId, TaffyError>)
        requires
            old(tree).wf(),
        ensures
            final(tree).wf(),
            final(tree).max_depth() == old(tree).max_depth(),
            extends(old(tree).nodes(), final(tree).nodes()),
            r.is_ok(),
            !valid(old(tree).nodes(), r.unwrap()),
            valid(final(tree).nodes(), r.unwrap()),
            parent_of(final(tree).nodes(), r.unwrap()).is_none(),
            built_from(final(tree).nodes(), r.unwrap(), *self, old(tree).nodes()),
            live_count(final(tree).nodes()) == live_count(old(tree).nodes()) + builder_count(*self),
        decreases self,
    {
        let style = self.build_style();
        let ghost s0 = tree.nodes();
        let node_id = match tree.new_leaf(style) {
            Ok(id) => id,
            Err(e) => {
                return Err(e);
            },
        };
        let ghost s1 = tree.nodes();
        if let Some(h) = &self.ref_handle {
            h.set(node_id);
        }
        let mut ids: Vec<NodeId> = Vec::new();
        let mut i: usize = 0;
        while i < self.children.len()
            invariant
                tree.wf(),
                tree.max_depth() == old(tree).max_depth(),
                s0 == old(tree).nodes(),
                extends(s0, s1),
                extends(s1, tree.nodes()),
                !valid(s0, node_id),
                valid(s1, node_id),
                valid(tree.nodes(), node_id),
                tree.nodes()[node_id.index as int] == s1[node_id.index as int],
                self.describes(style_of(s1, node_id)),
                kids(s1, node_id).len() == 0,
                parent_of(tree.nodes(), node_id).is_none(),
                i <= self.children@.len(),
                ids@.len() == i,
                forall|m: int| 0 <= m < i ==> valid(tree.nodes(), #[trigger] ids@[m]),
                forall|m: int| 0 <= m < i ==> !valid(s1, #[trigger] ids@[m]),
                forall|m: int| 0 <= m < i ==> (#[trigger] parent_of(tree.nodes(), ids@[m])).is_none(),
                forall|a: int, b: int| 0 <= a < b < i ==> #[trigger] ids@[a] != #[trigger] ids@[b],
                forall|m: int| 0 <= m < i ==> self.children@[m].describes(style_of(tree.nodes(), #[trigger] ids@[m])),
                forall|m: int| 0 <= m < i ==> built_from(tree.nodes(), #[trigger] ids@[m], *self.children@[m], s1),
                live_count(s1) == live_count(s0) + 1,
                live_count(tree.nodes()) == live_count(s1) + builders_count(self.children@.subrange(0, i as int)),
            decreases self.children@.len() - i,
        {
            let ghost prev = tree.nodes();
            proof {
                tree.lemma_wf_arena();
            }
            let c = match self.children[i].build(tree) {
                Ok(c) => c,
                Err(e) => {
                    return Err(e);
                },
            };
            proof {
                let cur = tree.nodes();
                tree.lemma_wf_arena();
                lemma_extends_trans(s1, prev, cur);
                lemma_extends_valid(prev, cur, node_id);
                lemma_extends_parent(prev, cur, node_id);
                assert(cur[node_id.index as int] == prev[node_id.index as int]);
                assert forall|m: int| 0 <= m < i implies valid(cur, #[trigger] ids@[m]) && (#[trigger] parent_of(
                    cur,
                    ids@[m],
                )).is_none() && ids@[m] != c by {
                    lemma_extends_valid(prev, cur, ids@[m]);
                    lemma_extends_parent(prev, cur, ids@[m]);
                }
                assert forall|m: int| 0 <= m < i implies style_of(cur, #[trigger] ids@[m]) == style_of(prev, ids@[m]) by {
                    assert(live(prev, ids@[m].index as int));
                }
                if valid(s1, c) {
                    lemma_extends_valid(s1, prev, c);
                }
                assert forall|x: NodeId| valid(s1, x) implies valid(prev, x) by {
                    lemma_extends_valid(s1, prev, x);
                }
                lemma_built_earlier(cur, c, *self.children@[i as int], s1, prev);
                assert forall|m: int| 0 <= m < i implies built_from(cur, #[trigger] ids@[m], *self.children@[m], s1) by {
                    lemma_built_extends(prev, cur, ids@[m], *self.children@[m], s1);
                }
            }
            proof {
                let sub = self.children@.subrange(0, i + 1);
                assert(sub.subrange(0, sub.len() - 1) =~= self.children@.subrange(0, i as int));
                assert(sub[sub.len() - 1] == self.children@[i as int]);
            }
            ids.push(c);
            i += 1;
            proof {
                assert forall|a: int, b: int| 0 <= a < b < i implies #[trigger] ids@[a] != #[trigger] ids@[b] by {
                    if b == i - 1 {
                        assert(ids@[b] == c);
                    }
                }
            }
        }
        let ghost pre = tree.nodes();
        proof {
            assert(self.children@.subrange(0, i as int) =~= self.children@);
            assert(pre.len() > 0);
            lemma_root_ancestry(pre, node_id);
            assert(children_error(pre, node_id, ids@).is_none()) by {
                assert forall|m: int| 0 <= m < ids@.len() implies !ancestry(pre, node_id, pre.len()).contains(
                    #[trigger] ids@[m],
                ) by {
                    if ancestry(pre, node_id, pre.len()).contains(ids@[m]) {
                        assert(seq![node_id][0] == node_id);
                        assert(ids@[m] == node_id);
                    }
                }
            }
        }
        match tree.set_children(node_id, ids.as_slice()) {
            Ok(()) => {},
            Err(e) => {
                return Err(e);
            },
        }
        proof {
            let fin = tree.nodes();
            let ni = node_id.index as int;
            lemma_extends_trans(s0, s1, pre);
            assert forall|j: int| live(s0, j) implies #[trigger] fin[j] == s0[j] by {
                assert(j != ni);
                assert(pre[j] == s0[j]);
            }
            assert forall|j: int, k: int|
                live(fin, j) && !live(s0, j) && 0 <= k < fin[j].data.unwrap().children@.len() implies !valid(
                s0,
                #[trigger] fin[j].data.unwrap().children@[k],
            ) by {
                if j == ni {
                    let x = ids@[k];
                    if valid(s0, x) {
                        lemma_extends_valid(s0, s1, x);
                    }
                } else {
                    assert(fin[j] == pre[j]);
                }
            }
            assert forall|m: int| 0 <= m < ids@.len() implies style_of(fin, #[trigger] ids@[m]) == style_of(pre, ids@[m]) by {
                assert(valid(pre, ids@[m]));
                assert(ids@[m] != node_id);
                assert(ids@[m].index != node_id.index);
            }
            assert(kids(fin, node_id) == ids@);
            assert forall|x: NodeId| valid(s0, x) implies valid(s1, x) by {
                lemma_extends_valid(s0, s1, x);
            }
            assert forall|m: int| 0 <= m < ids@.len() implies #[trigger] built_from(
                fin,
                kids(fin, node_id)[m],
                *self.children@[m],
                s0,
            ) by {
                lemma_built_frame(pre, fin, node_id, ids@[m], *self.children@[m], s1);
                lemma_built_earlier(fin, ids@[m], *self.children@[m], s0, s1);
            }
            assert(style_of(fin, node_id) == style_of(s1, node_id));
            lemma_all_built(fin, kids(fin, node_id), self.children@, s0);
            assert forall|q: int| !crate::node::is_parent(fin, q, node_id) by {
                if crate::node::is_parent(fin, q, node_id) {
                    if q == ni {
                        let k = choose|k: int| 0 <= k < ids@.len() && ids@[k] == node_id;
                        assert(!valid(s1, ids@[k]));
                    } else {
                        assert(fin[q] == pre[q]);
                        assert(crate::node::is_parent(pre, q, node_id));
                    }
                }
            }
        }
        Ok(node_id)
    }
}

/// How many nodes building `b` makes: one for it and one for each builder
/// below it, counted once for each place it is referred from.
pub open spec fn builder_count<'a>(b: StyleBuilder<'a>) -> nat
    decreases b,
{
    1 + builders_count(b.children@)
}

/// How many nodes building each of `bs` makes.
pub open spec fn builders_count<'a>(bs: Seq<&'a StyleBuilder<'a>>) -> nat
    decreases bs,
{
    if bs.len() == 0 {
        0
    } else {
        builders_count(bs.subrange(0, bs.len() - 1)) + builder_count(*bs[bs.len() - 1])
    }
}

/// `id` is a node of `nodes` made from builder `b` since `before`: it and
/// every node below it are new since `before`, each has its builder's style
/// and as many children as its builder has, each made the same way from the
/// matching child builder.
pub open spec fn built_from<'a>(nodes: Seq<Slot>, id: NodeId, b: StyleBuilder<'a>, before: Seq<Slot>) -> bool
    decreases b,
{
    &&& valid(nodes, id)
    &&& !valid(before, id)
    &&& b.describes(style_of(nodes, id))
    &&& kids(nodes, id).len() == b.children@.len()
    &&& all_built(nodes, kids(nodes, id), b.children@, before)
}

/// Each node of `ids` is made from the builder at the same place in `bs`.
pub open spec fn all_built<'a>(
    nodes: Seq<Slot>,
    ids: Seq<NodeId>,
    bs: Seq<&'a StyleBuilder<'a>>,
    before: Seq<Slot>,
) -> bool
    decreases bs,
{
    if bs.len() == 0 || ids.len() != bs.len() {
        bs.len() == 0 && ids.len() == 0
    } else {
        all_built(nodes, ids.subrange(0, ids.len() - 1), bs.subrange(0, bs.len() - 1), before)
            && built_from(nodes, ids[ids.len() - 1], *bs[bs.len() - 1], before)
    }
}

/// `all_built` holds exactly when each pair is built.
proof fn lemma_all_built<'a>(nodes: Seq<Slot>, ids: Seq<NodeId>, bs: Seq<&'a StyleBuilder<'a>>, before: Seq<Slot>)
    requires
        ids.len() == bs.len(),
    ensures
        all_built(nodes, ids, bs, before) <==> forall|k: int|
            0 <= k < bs.len() ==> #[trigger] built_from(nodes, ids[k], *bs[k], before),
    decreases bs.len(),
{
    if bs.len() > 0 {
        let n = bs.len() - 1;
        lemma_all_built(nodes, ids.subrange(0, n as int), bs.subrange(0, n as int), before);
        let si = ids.subrange(0, n as int);
        let sb = bs.subrange(0, n as int);
        assert forall|k: int| 0 <= k < n implies si[k] == ids[k] && sb[k] == bs[k] by {}
        if all_built(nodes, ids, bs, before) {
            assert forall|k: int| 0 <= k < bs.len() implies #[trigger] built_from(nodes, ids[k], *bs[k], before) by {
                if k < n {
                    assert(built_from(nodes, si[k], *sb[k], before));
                }
            }
        }
        if forall|k: int| 0 <= k < bs.len() ==> #[trigger] built_from(nodes, ids[k], *bs[k], before) {
            assert forall|k: int| 0 <= k < sb.len() implies #[trigger] built_from(nodes, si[k], *sb[k], before) by {
                assert(built_from(nodes, ids[k], *bs[k], before));
            }
            assert(built_from(nodes, ids[n as int], *bs[n as int], before));
        }
    }
}

/// A built tree stays as it is while the arena only grows.
proof fn lemma_built_extends<'a>(a: Seq<Slot>, c: Seq<Slot>, id: NodeId, b: StyleBuilder<'a>, before: Seq<Slot>)
    requires
        extends(a, c),
        built_from(a, id, b, before),
    ensures
        built_from(c, id, b, before),
    decreases b,
{
    lemma_all_built(a, kids(a, id), b.children@, before);
    lemma_all_built(c, kids(a, id), b.children@, before);
    lemma_extends_valid(a, c, id);
    assert(live(a, id.index as int));
    assert(c[id.index as int] == a[id.index as int]);
    assert forall|k: int| 0 <= k < b.children@.len() implies #[trigger] built_from(
        c,
        kids(c, id)[k],
        *b.children@[k],
        before,
    ) by {
        assert(built_from(a, kids(a, id)[k], *b.children@[k], before));
        lemma_built_extends(a, c, kids(a, id)[k], *b.children@[k], before);
    }
}

/// A built tree stays as it is when only the slot of an older node `p` changes.
proof fn lemma_built_frame<'a>(
    a: Seq<Slot>,
    c: Seq<Slot>,
    p: NodeId,
    id: NodeId,
    b: StyleBuilder<'a>,
    before: Seq<Slot>,
)
    requires
        built_from(a, id, b, before),
        valid(a, p),
        valid(before, p),
        c.len() == a.len(),
        forall|j: int| 0 <= j < a.len() && j != p.index ==> c[j] == a[j],
    ensures
        built_from(c, id, b, before),
    decreases b,
{
    lemma_all_built(a, kids(a, id), b.children@, before);
    lemma_all_built(c, kids(a, id), b.children@, before);
    assert(id.index != p.index);
    assert(c[id.index as int] == a[id.index as int]);
    assert forall|k: int| 0 <= k < b.children@.len() implies #[trigger] built_from(
        c,
        kids(c, id)[k],
        *b.children@[k],
        before,
    ) by {
        assert(built_from(a, kids(a, id)[k], *b.children@[k], before));
        lemma_built_frame(a, c, p, kids(a, id)[k], *b.children@[k], before);
    }
}

/// What is new since a later state is new since an earlier one.
proof fn lemma_built_earlier<'a>(nodes: Seq<Slot>, id: NodeId, b: StyleBuilder<'a>, s0: Seq<Slot>, s1: Seq<Slot>)
    requires
        built_from(nodes, id, b, s1),
        forall|x: NodeId| valid(s0, x) ==> valid(s1, x),
    ensures
        built_from(nodes, id, b, s0),
    decreases b,
{
    lemma_all_built(nodes, kids(nodes, id), b.children@, s1);
    lemma_all_built(nodes, kids(nodes, id), b.children@, s0);
    assert forall|k: int| 0 <= k < b.children@.len() implies #[trigger] built_from(
        nodes,
        kids(nodes, id)[k],
        *b.children@[k],
        s0,
    ) by {
        assert(built_from(nodes, kids(nodes, id)[k], *b.children@[k], s1));
        lemma_built_earlier(nodes, kids(nodes, id)[k], *b.children@[k], s0, s1);
    }
}

impl<'a> Default for StyleBuilder<'a> {
    fn default() -> (r: Self)
        ensures
            r.is_empty(),
    {
        Self::new()
    }
}

} // verus!
