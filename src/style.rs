use vstd::prelude::*;
use crate::geometry::{Dimension, Rect, Size};

verus! {

/// Which layout algorithm lays out a node's children.
#[derive(Clone, Copy, Debug, PartialEq, Eq, Structural)]
pub enum Display {
    Block,
    Flex,
    Grid,
    Hidden,
}

/// The main axis of a flex container.
#[derive(Clone, Copy, Debug, PartialEq, Eq, Structural)]
pub enum FlexDirection {
    Row,
    Column,
}

/// Where a flex container puts the space its items leave free on the main axis.
#[derive(Clone, Copy, Debug, PartialEq, Eq, Structural)]
pub enum JustifyContent {
    /// All at the start.
    Start,
    /// All at the end.
    End,
    /// Half before the first item, half after the last.
    Center,
    /// Evenly between items, none at the edges.
    SpaceBetween,
    /// Evenly around each item, so half as much at the edges as between items.
    SpaceAround,
    /// Evenly between items and at both edges.
    SpaceEvenly,
}

/// How a flex container places its items across its main axis.
#[derive(Clone, Copy, Debug, PartialEq, Eq, Structural)]
pub enum AlignItems {
    /// Items of auto cross size fill the line; others stand at the start.
    Stretch,
    Start,
    End,
    Center,
}

/// The sizing function of one grid column.
#[derive(Clone, Copy, Debug, PartialEq, Eq, Structural)]
pub enum GridTrack {
    /// A fixed length.
    Length(u32),
    /// A share of the free space, weighted by the factor.
    Fr(u32),
    /// As wide as the widest item placed in it.
    Auto,
}

/// The ratio `width / height` that a box keeps when one of its sizes is auto.
#[derive(Clone, Copy, Debug, PartialEq, Eq, Structural)]
pub struct AspectRatio {
    pub width: u32,
    pub height: u32,
}

/// How one node is laid out, and how it lays out its children.
#[derive(Debug)]
pub struct Style {
    pub display: Display,
    pub size: Size<Dimension>,
    pub min_size: Size<Dimension>,
    pub max_size: Size<Dimension>,
    pub margin: Rect<u32>,
    pub padding: Rect<u32>,
    pub border: Rect<u32>,
    pub aspect_ratio: Option<AspectRatio>,
    pub flex_direction: FlexDirection,
    pub justify_content: JustifyContent,
    pub align_items: AlignItems,
    pub align_self: Option<AlignItems>,
    pub flex_basis: Dimension,
    pub flex_grow: u32,
    pub flex_shrink: u32,
    pub gap: Size<u32>,
    pub grid_template_columns: Vec<GridTrack>,
    pub grid_template_rows: Vec<GridTrack>,
}

/// The same value on both axes.
pub open spec fn both<T>(v: T) -> Size<T> {
    Size { width: v, height: v }
}

/// The same value on all four edges.
pub open spec fn edges<T>(v: T) -> Rect<T> {
    Rect { left: v, right: v, top: v, bottom: v }
}

impl Style {
    /// The two styles hold the same values.
    pub open spec fn same_as(&self, o: &Style) -> bool {
        &&& self.same_scalars(o)
        &&& self.grid_template_columns@ == o.grid_template_columns@
        &&& self.grid_template_rows@ == o.grid_template_rows@
    }

    /// Every field but the columns is equal.
    pub open spec fn same_scalars(&self, o: &Style) -> bool {
        &&& self.display == o.display
        &&& self.size == o.size
        &&& self.min_size == o.min_size
        &&& self.max_size == o.max_size
        &&& self.margin == o.margin
        &&& self.padding == o.padding
        &&& self.border == o.border
        &&& self.aspect_ratio == o.aspect_ratio
        &&& self.flex_direction == o.flex_direction
        &&& self.justify_content == o.justify_content
        &&& self.align_items == o.align_items
        &&& self.align_self == o.align_self
        &&& self.flex_basis == o.flex_basis
        &&& self.flex_grow == o.flex_grow
        &&& self.flex_shrink == o.flex_shrink
        &&& self.gap == o.gap
    }

    /// The style of a node that nothing was set on: a flex row of auto size, items at the start and stretched,
    /// no edges, no grow, shrink factor one, no grid tracks.
    pub open spec fn is_default(&self) -> bool {
        &&& self.display == Display::Flex
        &&& self.size == both(Dimension::Auto)
        &&& self.min_size == both(Dimension::Auto)
        &&& self.max_size == both(Dimension::Auto)
        &&& self.margin == edges(0u32)
        &&& self.padding == edges(0u32)
        &&& self.border == edges(0u32)
        &&& self.aspect_ratio.is_none()
        &&& self.flex_direction == FlexDirection::Row
        &&& self.justify_content == JustifyContent::Start
        &&& self.align_items == AlignItems::Stretch
        &&& self.align_self.is_none()
        &&& self.flex_basis == Dimension::Auto
        &&& self.flex_grow == 0
        &&& self.flex_shrink == 1
        &&& self.gap == both(0u32)
        &&& self.grid_template_columns@.len() == 0
        &&& self.grid_template_rows@.len() == 0
    }

    /// A copy of the style.
    pub fn duplicate(&self) -> (r: Style)
        ensures
            r.same_as(self),
    {
        Style {
            display: self.display,
            size: self.size,
            min_size: self.min_size,
            max_size: self.max_size,
            margin: self.margin,
            padding: self.padding,
            border: self.border,
            aspect_ratio: self.aspect_ratio,
            flex_direction: self.flex_direction,
            justify_content: self.justify_content,
            align_items: self.align_items,
            align_self: self.align_self,
            flex_basis: self.flex_basis,
            flex_grow: self.flex_grow,
            flex_shrink: self.flex_shrink,
            gap: self.gap,
            grid_template_columns: copy_tracks(&self.grid_template_columns),
            grid_template_rows: copy_tracks(&self.grid_template_rows),
        }
    }
}

/// A copy of a list of columns.
pub fn copy_tracks(v: &Vec<GridTrack>) -> (r: Vec<GridTrack>)
    ensures
        r@ == v@,
{
    let mut r: Vec<GridTrack> = Vec::new();
    let mut i: usize = 0;
    while i < v.len()
        invariant
            i <= v.len(),
            r@ == v@.take(i as int),
        decreases v.len() - i,
    {
        r.push(v[i]);
        i += 1;
        proof {
            assert(r@ =~= v@.take(i as int));
        }
    }
    proof {
        assert(r@ =~= v@);
    }
    r
}

impl Default for Style {
    fn default() -> (r: Style)
        ensures
            r.is_default(),
    {
        let auto = Size { width: Dimension::Auto, height: Dimension::Auto };
        let zero = Rect { left: 0u32, right: 0u32, top: 0u32, bottom: 0u32 };
        Style {
            display: Display::Flex,
            size: auto,
            min_size: auto,
            max_size: auto,
            margin: zero,
            padding: zero,
            border: zero,
            aspect_ratio: None,
            flex_direction: FlexDirection::Row,
            justify_content: JustifyContent::Start,
            align_items: AlignItems::Stretch,
            align_self: None,
            flex_basis: Dimension::Auto,
            flex_grow: 0,
            flex_shrink: 1,
            gap: Size { width: 0u32, height: 0u32 },
            grid_template_columns: Vec::new(),
            grid_template_rows: Vec::new(),
        }
    }
}

/// Whether two lists of tracks are equal.
pub fn same_tracks(a: &Vec<GridTrack>, b: &Vec<GridTrack>) -> (r: bool)
    ensures
        r == (a@ == b@),
{
    if a.len() != b.len() {
        return false;
    }
    let mut i: usize = 0;
    while i < a.len()
        invariant
            a.len() == b.len(),
            i <= a.len(),
            a@.take(i as int) == b@.take(i as int),
        decreases a.len() - i,
    {
        if a[i] != b[i] {
            proof {
                assert(a@[i as int] != b@[i as int]);
            }
            return false;
        }
        proof {
            assert(a@.take(i + 1) =~= a@.take(i as int).push(a@[i as int]));
            assert(b@.take(i + 1) =~= b@.take(i as int).push(b@[i as int]));
        }
        i += 1;
    }
    proof {
        assert(a@ =~= a@.take(i as int));
        assert(b@ =~= b@.take(i as int));
    }
    true
}

impl PartialEq for Style {
    fn eq(&self, o: &Style) -> (r: bool)
        ensures
            r == self.same_as(o),
    {
        if !(self.display == o.display && self.size == o.size && self.min_size == o.min_size
            && self.max_size == o.max_size && self.margin == o.margin && self.padding == o.padding
            && self.border == o.border && self.aspect_ratio == o.aspect_ratio
            && self.flex_direction == o.flex_direction && self.justify_content == o.justify_content
            && self.align_items == o.align_items && self.align_self == o.align_self && self.flex_basis == o.flex_basis
            && self.flex_grow == o.flex_grow && self.flex_shrink == o.flex_shrink
            && self.gap == o.gap) {
            return false;
        }
        same_tracks(&self.grid_template_columns, &o.grid_template_columns) && same_tracks(
            &self.grid_template_rows,
            &o.grid_template_rows,
        )
    }
}

impl vstd::std_specs::cmp::PartialEqSpecImpl for Style {
    open spec fn obeys_eq_spec() -> bool {
        true
    }

    open spec fn eq_spec(&self, o: &Style) -> bool {
        self.same_as(o)
    }
}

} // verus!
