use vstd::prelude::*;
use crate::algo::{
    clamp, copy_u32, flex_main_sizes, group_max, spec_flex_main_sizes, FlexLine, LineView, group_maxes, max_of, run, run_extent, run_offset, spec_clamp,
    spec_max, spec_track_sizes, track_sizes,
};
use crate::geometry::{mul_div, resolve, sat, spec_resolve, AvailableSpace, Dimension, Size};
use crate::node::{content_of, kids, style_of, valid, Layout, NodeId, Slot};
use crate::style::{AlignItems, AspectRatio, Display, FlexDirection, GridTrack, JustifyContent, Style};

verus! {

/// The length offered, when it is definite.
pub open spec fn definite(a: AvailableSpace) -> Option<u32> {
    match a {
        AvailableSpace::Definite(v) => Some(v),
        _ => None,
    }
}

/// The component along the main axis of a row (`row`) or of a column.
pub open spec fn along<T>(z: Size<T>, row: bool) -> T {
    if row { z.width } else { z.height }
}

pub open spec fn pad_border_width(s: Style) -> u32 {
    sat(s.padding.left + s.padding.right + s.border.left + s.border.right)
}

pub open spec fn pad_border_height(s: Style) -> u32 {
    sat(s.padding.top + s.padding.bottom + s.border.top + s.border.bottom)
}

/// The margin before a box along an axis.
pub open spec fn lead(s: Style, row: bool) -> u32 {
    if row { s.margin.left } else { s.margin.top }
}

/// The margin after a box along an axis.
pub open spec fn trail(s: Style, row: bool) -> u32 {
    if row { s.margin.right } else { s.margin.bottom }
}

/// A value that may be unknown, held within bounds.
pub open spec fn opt_clamp(v: Option<u32>, min: Option<u32>, max: Option<u32>) -> Option<u32> {
    match v {
        Some(x) => Some(spec_clamp(x, min, max)),
        None => None,
    }
}

/// Where one size is known and the other is not, the aspect ratio gives it.
pub open spec fn ratio_fill(w: Option<u32>, h: Option<u32>, r: Option<AspectRatio>) -> Size<Option<u32>> {
    match r {
        Some(r) => if r.width > 0 && r.height > 0 && w.is_some() && h.is_none() {
            Size { width: w, height: Some(sat(w.unwrap() * r.height / r.width as int)) }
        } else if r.width > 0 && r.height > 0 && h.is_some() && w.is_none() {
            Size { width: Some(sat(h.unwrap() * r.width / r.height as int)), height: h }
        } else {
            Size { width: w, height: h }
        },
        None => Size { width: w, height: h },
    }
}

/// The sizes of a box fixed before its content is looked at: those its parent
/// imposes (`known`), else those its style gives against the offered space,
/// completed by the aspect ratio and held within the style's bounds.
pub open spec fn definite_size(s: Style, known: Size<Option<u32>>, avail: Size<AvailableSpace>) -> Size<
    Option<u32>,
> {
    let pw = definite(avail.width);
    let ph = definite(avail.height);
    let w = if known.width.is_some() { known.width } else { spec_resolve(s.size.width, pw) };
    let h = if known.height.is_some() { known.height } else { spec_resolve(s.size.height, ph) };
    let f = ratio_fill(w, h, s.aspect_ratio);
    Size {
        width: opt_clamp(f.width, spec_resolve(s.min_size.width, pw), spec_resolve(s.max_size.width, pw)),
        height: opt_clamp(f.height, spec_resolve(s.min_size.height, ph), spec_resolve(s.max_size.height, ph)),
    }
}

/// The final size of a box: what is definite, else its content plus padding
/// and border, held within its bounds.
pub open spec fn settle(s: Style, d: Size<Option<u32>>, content: Size<u32>, avail: Size<AvailableSpace>) -> Size<u32> {
    let pw = definite(avail.width);
    let ph = definite(avail.height);
    Size {
        width: match d.width {
            Some(w) => w,
            None => spec_clamp(
                sat(content.width + pad_border_width(s)),
                spec_resolve(s.min_size.width, pw),
                spec_resolve(s.max_size.width, pw),
            ),
        },
        height: match d.height {
            Some(h) => h,
            None => spec_clamp(
                sat(content.height + pad_border_height(s)),
                spec_resolve(s.min_size.height, ph),
                spec_resolve(s.max_size.height, ph),
            ),
        },
    }
}

/// The space a container offers its children: its definite inner size, else
/// what it was offered less its padding and border.
pub open spec fn inner_avail(s: Style, d: Size<Option<u32>>, avail: Size<AvailableSpace>) -> Size<AvailableSpace> {
    Size {
        width: match d.width {
            Some(w) => AvailableSpace::Definite(sat(w - pad_border_width(s))),
            None => match avail.width {
                AvailableSpace::Definite(a) => AvailableSpace::Definite(sat(a - pad_border_width(s))),
                m => m,
            },
        },
        height: match d.height {
            Some(h) => AvailableSpace::Definite(sat(h - pad_border_height(s))),
            None => match avail.height {
                AvailableSpace::Definite(a) => AvailableSpace::Definite(sat(a - pad_border_height(s))),
                m => m,
            },
        },
    }
}

/// One number read off a child, from its style and its measured size.
#[derive(Clone, Copy, Debug, PartialEq, Eq, Structural)]
pub enum Field {
    /// Its measured size along the axis.
    Along(bool),
    /// Its leading margin along the axis.
    Lead(bool),
    /// Its trailing margin along the axis.
    Trail(bool),
    /// Its measured size plus both margins along the axis.
    Outer(bool),
    /// Its flex basis along the axis, against the container's inner length.
    Basis(bool, Option<u32>),
    /// Its grow factor.
    Grow,
    /// Its shrink factor.
    Shrink,
    /// Its size across the axis: stretched to the container's inner length
    /// less its margins where its own size there is auto, else as measured.
    Cross(bool, u32),
    /// Nothing.
    Zero,
}

pub open spec fn pick(f: Field, s: Style, z: Size<u32>) -> u32 {
    match f {
        Field::Along(row) => along(z, row),
        Field::Lead(row) => lead(s, row),
        Field::Trail(row) => trail(s, row),
        Field::Outer(row) => sat(along(z, row) + lead(s, row) + trail(s, row)),
        Field::Basis(row, inner) => match spec_resolve(s.flex_basis, inner) {
            Some(b) => b,
            None => along(z, row),
        },
        Field::Grow => s.flex_grow,
        Field::Shrink => s.flex_shrink,
        Field::Cross(row, inner) => if along(s.size, !row) == Dimension::Auto && s.aspect_ratio.is_none() {
            sat(inner - lead(s, !row) - trail(s, !row))
        } else {
            along(z, !row)
        },
        Field::Zero => 0,
    }
}

/// A bound of a child along an axis, against the container's inner length.
pub open spec fn pick_bound(min: bool, row: bool, inner: Option<u32>, s: Style) -> Option<u32> {
    if min {
        spec_resolve(along(s.min_size, row), inner)
    } else {
        spec_resolve(along(s.max_size, row), inner)
    }
}

pub open spec fn picks(f: Field, st: Seq<Style>, cs: Seq<Size<u32>>) -> Seq<u32> {
    Seq::new(cs.len(), |i: int| pick(f, st[i], cs[i]))
}

pub open spec fn bounds(min: bool, row: bool, inner: Option<u32>, st: Seq<Style>) -> Seq<Option<u32>> {
    Seq::new(st.len(), |i: int| pick_bound(min, row, inner, st[i]))
}

pub open spec fn child_styles(nodes: Seq<Slot>, ks: Seq<NodeId>) -> Seq<Style> {
    Seq::new(ks.len(), |i: int| style_of(nodes, ks[i]))
}

/// The columns of a grid: those of its template, or one auto column.
pub open spec fn columns(s: Style) -> Seq<GridTrack> {
    if s.grid_template_columns@.len() == 0 {
        seq![GridTrack::Auto]
    } else {
        s.grid_template_columns@
    }
}

/// Items fill the grid row by row, one cell each: item `i` is in column
/// `i % cols` and row `i / cols`.
pub open spec fn cell_keys(n: nat, cols: nat, by_col: bool) -> Seq<usize> {
    Seq::new(n, |i: int| if by_col { (i % cols as int) as usize } else { (i / cols as int) as usize })
}

pub open spec fn row_count(n: nat, cols: nat) -> nat {
    (n as int / cols as int + if n as int % cols as int == 0 { 0int } else { 1int }) as nat
}

/// Column widths of a grid whose items measure `cs`.
pub open spec fn grid_widths(s: Style, st: Seq<Style>, cs: Seq<Size<u32>>, inner: Option<u32>) -> Seq<u32> {
    let cols = columns(s);
    let content = Seq::new(
        cols.len(),
        |c: int| group_max(picks(Field::Outer(true), st, cs), cell_keys(cs.len(), cols.len(), true), c),
    );
    spec_track_sizes(cols, content, inner, s.gap.width)
}

/// The rows of a grid: those of its template, then auto rows for as many
/// more as its `n` items fill.
pub open spec fn grid_rows(s: Style, n: nat) -> Seq<GridTrack> {
    let t = s.grid_template_rows@;
    let needed = row_count(n, columns(s).len());
    Seq::new(if t.len() > needed { t.len() } else { needed }, |r: int| if r < t.len() { t[r] } else { GridTrack::Auto })
}

/// Row heights of a grid, sized as columns are: an auto row as tall as its
/// tallest item, flexible rows sharing what a definite height leaves.
pub open spec fn grid_heights(s: Style, st: Seq<Style>, cs: Seq<Size<u32>>, inner: Option<u32>) -> Seq<u32> {
    let cols = columns(s).len();
    let rs = grid_rows(s, cs.len());
    let content = Seq::new(
        rs.len(),
        |r: int| group_max(picks(Field::Outer(false), st, cs), cell_keys(cs.len(), cols, false), r),
    );
    spec_track_sizes(rs, content, inner, s.gap.height)
}

pub open spec fn zeros(n: nat) -> Seq<u32> {
    Seq::new(n, |i: int| 0u32)
}

/// The size of a container's content, from its children's measured sizes.
pub open spec fn container_content(s: Style, st: Seq<Style>, cs: Seq<Size<u32>>, ia: Size<AvailableSpace>) -> Size<u32> {
    match s.display {
        Display::Grid => {
            let ws = grid_widths(s, st, cs, definite(ia.width));
            let hs = grid_heights(s, st, cs, definite(ia.height));
            Size {
                width: run_extent(ws, zeros(ws.len()), zeros(ws.len()), s.gap.width, false),
                height: run_extent(hs, zeros(hs.len()), zeros(hs.len()), s.gap.height, false),
            }
        },
        Display::Flex => {
            let row = s.flex_direction == FlexDirection::Row;
            let main = run_extent(
                picks(Field::Basis(row, definite(along(ia, row))), st, cs),
                picks(Field::Lead(row), st, cs),
                picks(Field::Trail(row), st, cs),
                along(s.gap, row),
                false,
            );
            let cross = spec_max(picks(Field::Outer(!row), st, cs));
            if row { Size { width: main, height: cross } } else { Size { width: cross, height: main } }
        },
        _ => Size {
            width: spec_max(picks(Field::Outer(true), st, cs)),
            height: run_extent(
                picks(Field::Along(false), st, cs),
                picks(Field::Lead(false), st, cs),
                picks(Field::Trail(false), st, cs),
                0,
                true,
            ),
        },
    }
}

pub open spec fn unknown() -> Size<Option<u32>> {
    Size { width: None, height: None }
}

/// The size a node takes when its parent imposes `known` and offers `avail`,
/// or `None` where the tree below it is deeper than `fuel` levels.
pub open spec fn node_size(
    nodes: Seq<Slot>,
    id: NodeId,
    known: Size<Option<u32>>,
    avail: Size<AvailableSpace>,
    fuel: nat,
) -> Option<Size<u32>>
    decreases fuel, 0nat,
{
    if fuel == 0 || !valid(nodes, id) {
        None
    } else {
        let s = style_of(nodes, id);
        let d = definite_size(s, known, avail);
        let ks = kids(nodes, id);
        if s.display == Display::Hidden {
            Some(Size { width: 0, height: 0 })
        } else if ks.len() == 0 {
            Some(settle(s, d, content_of(nodes, id), avail))
        } else {
            let ia = inner_avail(s, d, avail);
            match sizes_of(nodes, ks, ia, (fuel - 1) as nat) {
                Some(cs) => Some(settle(s, d, container_content(s, child_styles(nodes, ks), cs, ia), avail)),
                None => None,
            }
        }
    }
}

/// The measured sizes of a list of children, each offered `avail`.
pub open spec fn sizes_of(nodes: Seq<Slot>, ks: Seq<NodeId>, avail: Size<AvailableSpace>, fuel: nat) -> Option<
    Seq<Size<u32>>,
>
    decreases fuel, ks.len() + 1,
{
    if ks.len() == 0 {
        Some(Seq::empty())
    } else {
        match sizes_of(nodes, ks.drop_last(), avail, fuel) {
            Some(p) => match node_size(nodes, ks.last(), unknown(), avail, fuel) {
                Some(z) => Some(p.push(z)),
                None => None,
            },
            None => None,
        }
    }
}

/// The tree below the node is at most `fuel` levels deep.
pub open spec fn depth_ok(nodes: Seq<Slot>, id: NodeId, fuel: nat) -> bool
    decreases fuel, 0nat,
{
    if fuel == 0 || !valid(nodes, id) {
        false
    } else if style_of(nodes, id).display == Display::Hidden || kids(nodes, id).len() == 0 {
        true
    } else {
        all_depth_ok(nodes, kids(nodes, id), (fuel - 1) as nat)
    }
}

pub open spec fn all_depth_ok(nodes: Seq<Slot>, ks: Seq<NodeId>, fuel: nat) -> bool
    decreases fuel, ks.len() + 1,
{
    if ks.len() == 0 {
        true
    } else {
        all_depth_ok(nodes, ks.drop_last(), fuel) && depth_ok(nodes, ks.last(), fuel)
    }
}

/// Whether a node can be sized depends on the depth of the tree below it
/// alone, not on the space it is given.
pub proof fn lemma_size_iff_depth(
    nodes: Seq<Slot>,
    id: NodeId,
    known: Size<Option<u32>>,
    avail: Size<AvailableSpace>,
    fuel: nat,
)
    ensures
        node_size(nodes, id, known, avail, fuel).is_some() == depth_ok(nodes, id, fuel),
    decreases fuel, 0nat,
{
    if fuel > 0 && valid(nodes, id) {
        let s = style_of(nodes, id);
        let ks = kids(nodes, id);
        if s.display != Display::Hidden && ks.len() > 0 {
            let d = definite_size(s, known, avail);
            lemma_sizes_iff_depth(nodes, ks, inner_avail(s, d, avail), (fuel - 1) as nat);
        }
    }
}

pub proof fn lemma_sizes_iff_depth(nodes: Seq<Slot>, ks: Seq<NodeId>, avail: Size<AvailableSpace>, fuel: nat)
    ensures
        sizes_of(nodes, ks, avail, fuel).is_some() == all_depth_ok(nodes, ks, fuel),
        sizes_of(nodes, ks, avail, fuel).is_some() ==> sizes_of(nodes, ks, avail, fuel).unwrap().len() == ks.len(),
    decreases fuel, ks.len() + 1,
{
    if ks.len() > 0 {
        lemma_sizes_iff_depth(nodes, ks.drop_last(), avail, fuel);
        lemma_size_iff_depth(nodes, ks.last(), unknown(), avail, fuel);
    }
}

/// Where the first of `n` items starts, for `free` space left on the line.
pub open spec fn justify_start(j: JustifyContent, free: u32, n: nat) -> u32 {
    match j {
        JustifyContent::End => free,
        JustifyContent::Center => (free / 2) as u32,
        JustifyContent::SpaceAround => if n > 0 { (free as int / n as int / 2) as u32 } else { 0 },
        JustifyContent::SpaceEvenly => (free as int / (n as int + 1)) as u32,
        _ => 0,
    }
}

/// What is added to the gap between two of `n` items, for `free` space left.
pub open spec fn justify_gap(j: JustifyContent, free: u32, n: nat) -> u32 {
    match j {
        JustifyContent::SpaceBetween => if n > 1 { (free as int / (n as int - 1)) as u32 } else { 0 },
        JustifyContent::SpaceAround => if n > 0 { (free as int / n as int) as u32 } else { 0 },
        JustifyContent::SpaceEvenly => (free as int / (n as int + 1)) as u32,
        _ => 0,
    }
}

/// How an item is aligned: by its own `align_self`, else as the container's
/// `align_items` says.
pub open spec fn item_align(container: AlignItems, s: Style) -> AlignItems {
    match s.align_self {
        Some(a) => a,
        None => container,
    }
}

/// An item's size across the main axis: stretched where it is aligned by
/// stretching, else as measured.
pub open spec fn cross_size(al: AlignItems, s: Style, z: Size<u32>, row: bool, ic: u32) -> u32 {
    if al == AlignItems::Stretch {
        pick(Field::Cross(row, ic), s, z)
    } else {
        along(z, !row)
    }
}

/// An item's position across the main axis, in a line `ic` long.
pub open spec fn cross_pos(al: AlignItems, s: Style, z: Size<u32>, row: bool, ic: u32) -> u32 {
    let outer = sat(cross_size(al, s, z, row, ic) + lead(s, !row) + trail(s, !row));
    let room = sat(ic - outer);
    sat(lead(s, !row) + match al {
        AlignItems::End => room as int,
        AlignItems::Center => room as int / 2,
        _ => 0int,
    })
}

/// Places a box along an axis: main position and size along it, cross
/// position and size across it.
pub open spec fn orient(row: bool, main_pos: u32, cross_pos: u32, main: u32, cross: u32) -> Layout {
    if row {
        Layout { x: main_pos, y: cross_pos, size: Size { width: main, height: cross } }
    } else {
        Layout { x: cross_pos, y: main_pos, size: Size { width: cross, height: main } }
    }
}

/// Where a container of inner size `inner` puts its children, which measured
/// `cs` in that space, relative to its content box, and at what size.
/// A block stacks its children top to bottom, adjoining margins collapsed into
/// the larger one, and stretches children of auto width. A flex container lays
/// them along its main axis at the sizes that grow and shrink give, stretched
/// across it where their size there is auto. A grid puts item `i` in the cell
/// of its row and column and stretches it there where its size is auto.
pub open spec fn child_layouts(s: Style, st: Seq<Style>, cs: Seq<Size<u32>>, inner: Size<u32>) -> Seq<Layout> {
    let n = cs.len();
    match s.display {
        Display::Grid => {
            let ws = grid_widths(s, st, cs, Some(inner.width));
            let hs = grid_heights(s, st, cs, Some(inner.height));
            let cols = columns(s).len() as int;
            Seq::new(
                n,
                |i: int|
                    Layout {
                        x: sat(run_offset(ws, zeros(ws.len()), zeros(ws.len()), s.gap.width, false, i % cols)
                            + st[i].margin.left),
                        y: sat(run_offset(hs, zeros(hs.len()), zeros(hs.len()), s.gap.height, false, i / cols)
                            + st[i].margin.top),
                        size: Size {
                            width: pick(Field::Cross(false, ws[i % cols]), st[i], cs[i]),
                            height: pick(Field::Cross(true, hs[i / cols]), st[i], cs[i]),
                        },
                    },
            )
        },
        Display::Flex => {
            let row = s.flex_direction == FlexDirection::Row;
            let im = along(inner, row);
            let bases = picks(Field::Basis(row, Some(im)), st, cs);
            let leads = picks(Field::Lead(row), st, cs);
            let trails = picks(Field::Trail(row), st, cs);
            let gap = along(s.gap, row);
            let mains = spec_flex_main_sizes(
                LineView {
                    bases,
                    grows: picks(Field::Grow, st, cs),
                    shrinks: picks(Field::Shrink, st, cs),
                    mins: bounds(true, row, Some(im), st),
                    maxs: bounds(false, row, Some(im), st),
                    leads,
                    trails,
                    gap,
                    inner: im,
                },
            );
            let free = sat(im - run_extent(mains, leads, trails, gap, false));
            let start = justify_start(s.justify_content, free, n);
            let spread = sat(gap + justify_gap(s.justify_content, free, n));
            let ic = along(inner, !row);
            Seq::new(
                n,
                |i: int|
                    orient(
                        row,
                        sat(start + run_offset(mains, leads, trails, spread, false, i)),
                        cross_pos(item_align(s.align_items, st[i]), st[i], cs[i], row, ic),
                        mains[i],
                        cross_size(item_align(s.align_items, st[i]), st[i], cs[i], row, ic),
                    ),
            )
        },
        _ => {
            let hs = picks(Field::Along(false), st, cs);
            Seq::new(
                n,
                |i: int|
                    Layout {
                        x: st[i].margin.left,
                        y: run_offset(hs, picks(Field::Lead(false), st, cs), picks(Field::Trail(false), st, cs), 0, true, i),
                        size: Size { width: pick(Field::Cross(false, inner.width), st[i], cs[i]), height: cs[i].height },
                    },
            )
        },
    }
}

/// The space inside a box of size `z`, less padding and border.
pub open spec fn inner_of(s: Style, z: Size<u32>) -> Size<u32> {
    Size { width: sat(z.width - pad_border_width(s)), height: sat(z.height - pad_border_height(s)) }
}

pub open spec fn offer(z: Size<u32>) -> Size<AvailableSpace> {
    Size { width: AvailableSpace::Definite(z.width), height: AvailableSpace::Definite(z.height) }
}

/// Where a node of final size `z` puts its children: each is measured in the
/// node's inner space and placed there; `None` where the tree is too deep.
pub open spec fn placement(nodes: Seq<Slot>, id: NodeId, z: Size<u32>, fuel: nat) -> Option<Seq<Layout>> {
    let s = style_of(nodes, id);
    let ks = kids(nodes, id);
    if fuel == 0 {
        None
    } else if s.display == Display::Hidden || ks.len() == 0 {
        Some(Seq::empty())
    } else {
        match sizes_of(nodes, ks, offer(inner_of(s, z)), (fuel - 1) as nat) {
            Some(cs) => Some(child_layouts(s, child_styles(nodes, ks), cs, inner_of(s, z))),
            None => None,
        }
    }
}

pub fn definite_size_of(s: &Style, known: Size<Option<u32>>, avail: Size<AvailableSpace>) -> (r: Size<Option<u32>>)
    ensures
        r == definite_size(*s, known, avail),
{
    let pw = match avail.width {
        AvailableSpace::Definite(v) => Some(v),
        _ => None,
    };
    let ph = match avail.height {
        AvailableSpace::Definite(v) => Some(v),
        _ => None,
    };
    let w = if known.width.is_some() { known.width } else { resolve(s.size.width, pw) };
    let h = if known.height.is_some() { known.height } else { resolve(s.size.height, ph) };
    let (w, h) = match s.aspect_ratio {
        Some(r) => if r.width > 0 && r.height > 0 && w.is_some() && h.is_none() {
            (w, Some(mul_div(w.unwrap(), r.height, r.width)))
        } else if r.width > 0 && r.height > 0 && h.is_some() && w.is_none() {
            (Some(mul_div(h.unwrap(), r.width, r.height)), h)
        } else {
            (w, h)
        },
        None => (w, h),
    };
    let w = match w {
        Some(x) => Some(clamp(x, resolve(s.min_size.width, pw), resolve(s.max_size.width, pw))),
        None => None,
    };
    let h = match h {
        Some(x) => Some(clamp(x, resolve(s.min_size.height, ph), resolve(s.max_size.height, ph))),
        None => None,
    };
    Size { width: w, height: h }
}

fn pad_border(s: &Style) -> (r: (u32, u32))
    ensures
        r.0 == pad_border_width(*s),
        r.1 == pad_border_height(*s),
{
    let w = s.padding.left.saturating_add(s.padding.right).saturating_add(s.border.left).saturating_add(
        s.border.right,
    );
    let h = s.padding.top.saturating_add(s.padding.bottom).saturating_add(s.border.top).saturating_add(
        s.border.bottom,
    );
    (w, h)
}

pub fn settle_size(s: &Style, d: Size<Option<u32>>, content: Size<u32>, avail: Size<AvailableSpace>) -> (r: Size<u32>)
    ensures
        r == settle(*s, d, content, avail),
{
    let pw = match avail.width {
        AvailableSpace::Definite(v) => Some(v),
        _ => None,
    };
    let ph = match avail.height {
        AvailableSpace::Definite(v) => Some(v),
        _ => None,
    };
    let (pbw, pbh) = pad_border(s);
    let width = match d.width {
        Some(w) => w,
        None => clamp(content.width.saturating_add(pbw), resolve(s.min_size.width, pw), resolve(s.max_size.width, pw)),
    };
    let height = match d.height {
        Some(h) => h,
        None => clamp(
            content.height.saturating_add(pbh),
            resolve(s.min_size.height, ph),
            resolve(s.max_size.height, ph),
        ),
    };
    Size { width, height }
}

pub fn inner_avail_of(s: &Style, d: Size<Option<u32>>, avail: Size<AvailableSpace>) -> (r: Size<AvailableSpace>)
    ensures
        r == inner_avail(*s, d, avail),
{
    let (pbw, pbh) = pad_border(s);
    let width = match d.width {
        Some(w) => AvailableSpace::Definite(w.saturating_sub(pbw)),
        None => match avail.width {
            AvailableSpace::Definite(a) => AvailableSpace::Definite(a.saturating_sub(pbw)),
            m => m,
        },
    };
    let height = match d.height {
        Some(h) => AvailableSpace::Definite(h.saturating_sub(pbh)),
        None => match avail.height {
            AvailableSpace::Definite(a) => AvailableSpace::Definite(a.saturating_sub(pbh)),
            m => m,
        },
    };
    Size { width, height }
}

pub fn inner_size(s: &Style, z: Size<u32>) -> (r: Size<u32>)
    ensures
        r == inner_of(*s, z),
{
    let (pbw, pbh) = pad_border(s);
    Size { width: z.width.saturating_sub(pbw), height: z.height.saturating_sub(pbh) }
}

fn pick_one(f: Field, s: &Style, z: Size<u32>) -> (r: u32)
    ensures
        r == pick(f, *s, z),
{
    match f {
        Field::Along(row) => if row { z.width } else { z.height },
        Field::Lead(row) => if row { s.margin.left } else { s.margin.top },
        Field::Trail(row) => if row { s.margin.right } else { s.margin.bottom },
        Field::Outer(row) => if row {
            z.width.saturating_add(s.margin.left).saturating_add(s.margin.right)
        } else {
            z.height.saturating_add(s.margin.top).saturating_add(s.margin.bottom)
        },
        Field::Basis(row, inner) => match resolve(s.flex_basis, inner) {
            Some(b) => b,
            None => if row { z.width } else { z.height },
        },
        Field::Grow => s.flex_grow,
        Field::Shrink => s.flex_shrink,
        Field::Cross(row, inner) => {
            let size = if row { s.size.height } else { s.size.width };
            if size == Dimension::Auto && s.aspect_ratio.is_none() {
                if row {
                    inner.saturating_sub(s.margin.top).saturating_sub(s.margin.bottom)
                } else {
                    inner.saturating_sub(s.margin.left).saturating_sub(s.margin.right)
                }
            } else {
                if row { z.height } else { z.width }
            }
        },
        Field::Zero => 0,
    }
}

/// The children are live nodes.
pub open spec fn all_valid(nodes: Seq<Slot>, ks: Seq<NodeId>) -> bool {
    forall|i: int| 0 <= i < ks.len() ==> valid(nodes, #[trigger] ks[i])
}

pub fn picks_of(f: Field, nodes: &Vec<Slot>, ks: &Vec<NodeId>, cs: &Vec<Size<u32>>) -> (r: Vec<u32>)
    requires
        all_valid(nodes@, ks@),
        cs.len() == ks.len(),
    ensures
        r@ == picks(f, child_styles(nodes@, ks@), cs@),
{
    let ghost st = child_styles(nodes@, ks@);
    let mut out: Vec<u32> = Vec::new();
    let mut i: usize = 0;
    while i < ks.len()
        invariant
            all_valid(nodes@, ks@),
            cs.len() == ks.len(),
            st == child_styles(nodes@, ks@),
            i <= ks.len(),
            out@ == picks(f, st, cs@).take(i as int),
        decreases ks.len() - i,
    {
        let k = ks[i];
        assert(valid(nodes@, ks@[i as int]));
        let s = &nodes[k.index].data.as_ref().unwrap().style;
        out.push(pick_one(f, s, cs[i]));
        i += 1;
        proof {
            assert(out@ =~= picks(f, st, cs@).take(i as int));
        }
    }
    proof {
        assert(out@ =~= picks(f, st, cs@));
    }
    out
}

pub fn bounds_of(min: bool, row: bool, inner: Option<u32>, nodes: &Vec<Slot>, ks: &Vec<NodeId>) -> (r: Vec<
    Option<u32>,
>)
    requires
        all_valid(nodes@, ks@),
    ensures
        r@ == bounds(min, row, inner, child_styles(nodes@, ks@)),
{
    let ghost st = child_styles(nodes@, ks@);
    let mut out: Vec<Option<u32>> = Vec::new();
    let mut i: usize = 0;
    while i < ks.len()
        invariant
            all_valid(nodes@, ks@),
            st == child_styles(nodes@, ks@),
            i <= ks.len(),
            out@ == bounds(min, row, inner, st).take(i as int),
        decreases ks.len() - i,
    {
        let k = ks[i];
        assert(valid(nodes@, ks@[i as int]));
        let s = &nodes[k.index].data.as_ref().unwrap().style;
        let d = if min {
            if row { s.min_size.width } else { s.min_size.height }
        } else {
            if row { s.max_size.width } else { s.max_size.height }
        };
        out.push(resolve(d, inner));
        i += 1;
        proof {
            assert(out@ =~= bounds(min, row, inner, st).take(i as int));
        }
    }
    proof {
        assert(out@ =~= bounds(min, row, inner, st));
    }
    out
}

pub fn columns_of(s: &Style) -> (r: Vec<GridTrack>)
    ensures
        r@ == columns(*s),
{
    if s.grid_template_columns.len() == 0 {
        let mut v: Vec<GridTrack> = Vec::new();
        v.push(GridTrack::Auto);
        proof {
            assert(v@ =~= seq![GridTrack::Auto]);
        }
        v
    } else {
        crate::style::copy_tracks(&s.grid_template_columns)
    }
}

pub fn cell_keys_of(n: usize, cols: usize, by_col: bool) -> (r: Vec<usize>)
    requires
        cols > 0,
    ensures
        r@ == cell_keys(n as nat, cols as nat, by_col),
{
    let mut out: Vec<usize> = Vec::new();
    let mut i: usize = 0;
    while i < n
        invariant
            cols > 0,
            i <= n,
            out@ == cell_keys(n as nat, cols as nat, by_col).take(i as int),
        decreases n - i,
    {
        out.push(if by_col { i % cols } else { i / cols });
        i += 1;
        proof {
            assert(out@ =~= cell_keys(n as nat, cols as nat, by_col).take(i as int));
        }
    }
    proof {
        assert(out@ =~= cell_keys(n as nat, cols as nat, by_col));
    }
    out
}

pub fn grid_widths_of(s: &Style, nodes: &Vec<Slot>, ks: &Vec<NodeId>, cs: &Vec<Size<u32>>, inner: Option<u32>) -> (r: Vec<
    u32,
>)
    requires
        all_valid(nodes@, ks@),
        cs.len() == ks.len(),
    ensures
        r@ == grid_widths(*s, child_styles(nodes@, ks@), cs@, inner),
{
    let cols = columns_of(s);
    let outer = picks_of(Field::Outer(true), nodes, ks, cs);
    let keys = cell_keys_of(cs.len(), cols.len(), true);
    let content = group_maxes(&outer, &keys, cols.len());
    track_sizes(&cols, &content, inner, s.gap.width)
}

fn grid_rows_of(s: &Style, n: usize, ncols: usize) -> (r: Vec<GridTrack>)
    requires
        ncols == columns(*s).len(),
    ensures
        r@ == grid_rows(*s, n as nat),
{
    proof {
        if n % ncols != 0 {
            assert(ncols >= 2);
            assert(n / ncols <= n / 2) by (nonlinear_arith)
                requires ncols >= 2;
        }
    }
    let needed = n / ncols + if n % ncols == 0 { 0 } else { 1 };
    let t = &s.grid_template_rows;
    let len = if t.len() > needed { t.len() } else { needed };
    let ghost spec_r = grid_rows(*s, n as nat);
    let mut out: Vec<GridTrack> = Vec::new();
    let mut r: usize = 0;
    while r < len
        invariant
            t@ == s.grid_template_rows@,
            spec_r == grid_rows(*s, n as nat),
            spec_r.len() == len,
            r <= len,
            out@ == spec_r.take(r as int),
        decreases len - r,
    {
        out.push(if r < t.len() { t[r] } else { GridTrack::Auto });
        r += 1;
        proof {
            assert(out@ =~= spec_r.take(r as int));
        }
    }
    proof {
        assert(out@ =~= spec_r);
    }
    out
}

pub fn grid_heights_of(s: &Style, nodes: &Vec<Slot>, ks: &Vec<NodeId>, cs: &Vec<Size<u32>>, inner: Option<u32>) -> (r: Vec<
    u32,
>)
    requires
        all_valid(nodes@, ks@),
        cs.len() == ks.len(),
    ensures
        r@ == grid_heights(*s, child_styles(nodes@, ks@), cs@, inner),
        r@.len() == grid_rows(*s, cs@.len()).len(),
{
    let cols = columns_of(s);
    let n = cs.len();
    let ncols = cols.len();
    let rows = grid_rows_of(s, n, ncols);
    let outer = picks_of(Field::Outer(false), nodes, ks, cs);
    let keys = cell_keys_of(n, ncols, false);
    let content = group_maxes(&outer, &keys, rows.len());
    track_sizes(&rows, &content, inner, s.gap.height)
}

pub fn zeros_of(n: usize) -> (r: Vec<u32>)
    ensures
        r@ == zeros(n as nat),
{
    let mut out: Vec<u32> = Vec::new();
    let mut i: usize = 0;
    while i < n
        invariant
            i <= n,
            out@ == zeros(i as nat),
        decreases n - i,
    {
        out.push(0);
        i += 1;
        proof {
            assert(out@ =~= zeros(i as nat));
        }
    }
    out
}

pub fn container_content_of(
    s: &Style,
    nodes: &Vec<Slot>,
    ks: &Vec<NodeId>,
    cs: &Vec<Size<u32>>,
    ia: Size<AvailableSpace>,
) -> (r: Size<u32>)
    requires
        all_valid(nodes@, ks@),
        cs.len() == ks.len(),
    ensures
        r == container_content(*s, child_styles(nodes@, ks@), cs@, ia),
{
    match s.display {
        Display::Grid => {
            let iw = match ia.width {
                AvailableSpace::Definite(v) => Some(v),
                _ => None,
            };
            let ws = grid_widths_of(s, nodes, ks, cs, iw);
            let ih = match ia.height {
                AvailableSpace::Definite(v) => Some(v),
                _ => None,
            };
            let hs = grid_heights_of(s, nodes, ks, cs, ih);
            let zw = zeros_of(ws.len());
            let zh = zeros_of(hs.len());
            let (_, width) = run(&ws, &zw, &zw, s.gap.width, false);
            let (_, height) = run(&hs, &zh, &zh, s.gap.height, false);
            Size { width, height }
        },
        Display::Flex => {
            let row = s.flex_direction == FlexDirection::Row;
            let im = if row { ia.width } else { ia.height };
            let im = match im {
                AvailableSpace::Definite(v) => Some(v),
                _ => None,
            };
            let bases = picks_of(Field::Basis(row, im), nodes, ks, cs);
            let leads = picks_of(Field::Lead(row), nodes, ks, cs);
            let trails = picks_of(Field::Trail(row), nodes, ks, cs);
            let gap = if row { s.gap.width } else { s.gap.height };
            let (_, main) = run(&bases, &leads, &trails, gap, false);
            let cross = max_of(&picks_of(Field::Outer(!row), nodes, ks, cs));
            if row { Size { width: main, height: cross } } else { Size { width: cross, height: main } }
        },
        _ => {
            let width = max_of(&picks_of(Field::Outer(true), nodes, ks, cs));
            let hs = picks_of(Field::Along(false), nodes, ks, cs);
            let leads = picks_of(Field::Lead(false), nodes, ks, cs);
            let trails = picks_of(Field::Trail(false), nodes, ks, cs);
            let (_, height) = run(&hs, &leads, &trails, 0, true);
            Size { width, height }
        },
    }
}

fn grid_layouts_of(s: &Style, nodes: &Vec<Slot>, ks: &Vec<NodeId>, cs: &Vec<Size<u32>>, inner: Size<u32>) -> (r: Vec<
    Layout,
>)
    requires
        all_valid(nodes@, ks@),
        cs.len() == ks.len(),
        s.display == Display::Grid,
    ensures
        r@ == child_layouts(*s, child_styles(nodes@, ks@), cs@, inner),
{
    let ghost st = child_styles(nodes@, ks@);
    let ghost spec_r = child_layouts(*s, st, cs@, inner);
    let ws = grid_widths_of(s, nodes, ks, cs, Some(inner.width));
    let hs = grid_heights_of(s, nodes, ks, cs, Some(inner.height));
    let zw = zeros_of(ws.len());
    let zh = zeros_of(hs.len());
    let (xs, _) = run(&ws, &zw, &zw, s.gap.width, false);
    let (ys, _) = run(&hs, &zh, &zh, s.gap.height, false);
    let cols = columns_of(s).len();
    let n = cs.len();
    proof {
        assert(ws@.len() == cols);
        assert(hs@.len() >= row_count(n as nat, cols as nat));
    }
    let mut out: Vec<Layout> = Vec::new();
    let mut i: usize = 0;
    while i < n
        invariant
            all_valid(nodes@, ks@),
            n == cs.len(),
            cs.len() == ks.len(),
            s.display == Display::Grid,
            st == child_styles(nodes@, ks@),
            spec_r == child_layouts(*s, st, cs@, inner),
            cols == columns(*s).len(),
            ws@ == grid_widths(*s, st, cs@, Some(inner.width)),
            hs@ == grid_heights(*s, st, cs@, Some(inner.height)),
            ws@.len() == cols,
            hs@.len() >= row_count(n as nat, cols as nat),
            xs@ == Seq::new(ws.len() as nat, |c: int| run_offset(ws@, zw@, zw@, s.gap.width, false, c)),
            ys@ == Seq::new(hs.len() as nat, |c: int| run_offset(hs@, zh@, zh@, s.gap.height, false, c)),
            zw@ == zeros(ws.len() as nat),
            zh@ == zeros(hs.len() as nat),
            i <= n,
            out@ == spec_r.take(i as int),
        decreases n - i,
    {
        let c = i % cols;
        let rw = i / cols;
        proof {
            assert(rw < row_count(n as nat, cols as nat)) by (nonlinear_arith)
                requires
                    i < n,
                    cols > 0,
                    rw == i / cols,
                    row_count(n as nat, cols as nat) == (n as int / cols as int + if n as int % cols as int == 0 { 0int } else { 1int }) as nat;
        }
        let k = ks[i];
        assert(valid(nodes@, ks@[i as int]));
        let cst = &nodes[k.index].data.as_ref().unwrap().style;
        let l = Layout {
            x: xs[c].saturating_add(cst.margin.left),
            y: ys[rw].saturating_add(cst.margin.top),
            size: Size {
                width: pick_one(Field::Cross(false, ws[c]), cst, cs[i]),
                height: pick_one(Field::Cross(true, hs[rw]), cst, cs[i]),
            },
        };
        out.push(l);
        i += 1;
        proof {
            assert(out@ =~= spec_r.take(i as int));
        }
    }
    proof {
        assert(out@ =~= spec_r);
    }
    out
}

fn flex_layouts_of(s: &Style, nodes: &Vec<Slot>, ks: &Vec<NodeId>, cs: &Vec<Size<u32>>, inner: Size<u32>) -> (r: Vec<
    Layout,
>)
    requires
        all_valid(nodes@, ks@),
        cs.len() == ks.len(),
        s.display == Display::Flex,
    ensures
        r@ == child_layouts(*s, child_styles(nodes@, ks@), cs@, inner),
{
    let ghost st = child_styles(nodes@, ks@);
    let ghost spec_r = child_layouts(*s, st, cs@, inner);
    let row = s.flex_direction == FlexDirection::Row;
    let im = if row { inner.width } else { inner.height };
    let ic = if row { inner.height } else { inner.width };
    let bases = picks_of(Field::Basis(row, Some(im)), nodes, ks, cs);
    let leads = picks_of(Field::Lead(row), nodes, ks, cs);
    let trails = picks_of(Field::Trail(row), nodes, ks, cs);
    let gap = if row { s.gap.width } else { s.gap.height };
    let grows = picks_of(Field::Grow, nodes, ks, cs);
    let shrinks = picks_of(Field::Shrink, nodes, ks, cs);
    let mins = bounds_of(true, row, Some(im), nodes, ks);
    let maxs = bounds_of(false, row, Some(im), nodes, ks);
    let line = FlexLine {
        bases,
        grows,
        shrinks,
        mins,
        maxs,
        leads: copy_u32(&leads),
        trails: copy_u32(&trails),
        gap,
        inner: im,
    };
    let mains = flex_main_sizes(&line);
    assert(mains@.len() == cs@.len());
    let n = cs.len();
    let (_, ext) = run(&mains, &leads, &trails, gap, false);
    let free = im.saturating_sub(ext);
    let start = justify_start_of(s.justify_content, free, n);
    let spread = gap.saturating_add(justify_gap_of(s.justify_content, free, n));
    let (pos, _) = run(&mains, &leads, &trails, spread, false);
    let mut out: Vec<Layout> = Vec::new();
    let mut i: usize = 0;
    while i < n
        invariant
            all_valid(nodes@, ks@),
            n == cs.len(),
            cs.len() == ks.len(),
            s.display == Display::Flex,
            row == (s.flex_direction == FlexDirection::Row),
            ic == along(inner, !row),
            st == child_styles(nodes@, ks@),
            spec_r == child_layouts(*s, st, cs@, inner),
            mains@ == spec_flex_main_sizes(
                LineView {
                    bases: picks(Field::Basis(row, Some(im)), st, cs@),
                    grows: picks(Field::Grow, st, cs@),
                    shrinks: picks(Field::Shrink, st, cs@),
                    mins: bounds(true, row, Some(im), st),
                    maxs: bounds(false, row, Some(im), st),
                    leads: leads@,
                    trails: trails@,
                    gap,
                    inner: im,
                },
            ),
            leads@ == picks(Field::Lead(row), st, cs@),
            trails@ == picks(Field::Trail(row), st, cs@),
            mains@.len() == n,
            im == along(inner, row),
            gap == along(s.gap, row),
            free == sat(im - run_extent(mains@, leads@, trails@, gap, false)),
            start == justify_start(s.justify_content, free, n as nat),
            spread == sat(gap + justify_gap(s.justify_content, free, n as nat)),
            pos@ == Seq::new(mains.len() as nat, |k: int| run_offset(mains@, leads@, trails@, spread, false, k)),
            i <= n,
            out@ == spec_r.take(i as int),
        decreases n - i,
    {
        let k = ks[i];
        assert(valid(nodes@, ks@[i as int]));
        let cst = &nodes[k.index].data.as_ref().unwrap().style;
        let al = match cst.align_self {
            Some(a) => a,
            None => s.align_items,
        };
        let cross = if al == AlignItems::Stretch {
            pick_one(Field::Cross(row, ic), cst, cs[i])
        } else {
            if row { cs[i].height } else { cs[i].width }
        };
        let (lc, tc) = if row { (cst.margin.top, cst.margin.bottom) } else { (cst.margin.left, cst.margin.right) };
        let room = ic.saturating_sub(cross.saturating_add(lc).saturating_add(tc));
        let shift = match al {
            AlignItems::End => room,
            AlignItems::Center => room / 2,
            _ => 0,
        };
        let cross_at = lc.saturating_add(shift);
        let main_at = start.saturating_add(pos[i]);
        let l = if row {
            Layout { x: main_at, y: cross_at, size: Size { width: mains[i], height: cross } }
        } else {
            Layout { x: cross_at, y: main_at, size: Size { width: cross, height: mains[i] } }
        };
        out.push(l);
        i += 1;
        proof {
            assert(out@ =~= spec_r.take(i as int));
        }
    }
    proof {
        assert(out@ =~= spec_r);
    }
    out
}

/// `free / parts`, rounded down.
fn share(free: u32, parts: usize) -> (r: u32)
    requires
        parts > 0,
    ensures
        r == free as int / parts as int,
{
    if parts > free as usize {
        proof {
            assert(free as int / parts as int == 0) by (nonlinear_arith)
                requires parts > free;
        }
        0
    } else {
        free / (parts as u32)
    }
}

/// `free / (n + 1)`, rounded down.
fn share_among_gaps(free: u32, n: usize) -> (r: u32)
    ensures
        r == free as int / (n as int + 1),
{
    if n >= free as usize {
        proof {
            assert(free as int / (n + 1) == 0) by (nonlinear_arith)
                requires n >= free;
        }
        0
    } else {
        free / ((n + 1) as u32)
    }
}

fn justify_start_of(j: JustifyContent, free: u32, n: usize) -> (r: u32)
    ensures
        r == justify_start(j, free, n as nat),
{
    match j {
        JustifyContent::End => free,
        JustifyContent::Center => free / 2,
        JustifyContent::SpaceAround => if n > 0 { share(free, n) / 2 } else { 0 },
        JustifyContent::SpaceEvenly => share_among_gaps(free, n),
        _ => 0,
    }
}

fn justify_gap_of(j: JustifyContent, free: u32, n: usize) -> (r: u32)
    ensures
        r == justify_gap(j, free, n as nat),
{
    match j {
        JustifyContent::SpaceBetween => if n > 1 { share(free, n - 1) } else { 0 },
        JustifyContent::SpaceAround => if n > 0 { share(free, n) } else { 0 },
        JustifyContent::SpaceEvenly => share_among_gaps(free, n),
        _ => 0,
    }
}

fn block_layouts_of(s: &Style, nodes: &Vec<Slot>, ks: &Vec<NodeId>, cs: &Vec<Size<u32>>, inner: Size<u32>) -> (r: Vec<
    Layout,
>)
    requires
        all_valid(nodes@, ks@),
        cs.len() == ks.len(),
        s.display != Display::Flex,
        s.display != Display::Grid,
    ensures
        r@ == child_layouts(*s, child_styles(nodes@, ks@), cs@, inner),
{
    let ghost st = child_styles(nodes@, ks@);
    let ghost spec_r = child_layouts(*s, st, cs@, inner);
    let hs = picks_of(Field::Along(false), nodes, ks, cs);
    let leads = picks_of(Field::Lead(false), nodes, ks, cs);
    let trails = picks_of(Field::Trail(false), nodes, ks, cs);
    let (ys, _) = run(&hs, &leads, &trails, 0, true);
    let n = cs.len();
    let mut out: Vec<Layout> = Vec::new();
    let mut i: usize = 0;
    while i < n
        invariant
            all_valid(nodes@, ks@),
            n == cs.len(),
            cs.len() == ks.len(),
            s.display != Display::Flex,
            s.display != Display::Grid,
            st == child_styles(nodes@, ks@),
            spec_r == child_layouts(*s, st, cs@, inner),
            hs@ == picks(Field::Along(false), st, cs@),
            leads@ == picks(Field::Lead(false), st, cs@),
            trails@ == picks(Field::Trail(false), st, cs@),
            ys@ == Seq::new(hs.len() as nat, |k: int| run_offset(hs@, leads@, trails@, 0, true, k)),
            i <= n,
            out@ == spec_r.take(i as int),
        decreases n - i,
    {
        let k = ks[i];
        assert(valid(nodes@, ks@[i as int]));
        let cst = &nodes[k.index].data.as_ref().unwrap().style;
        let l = Layout {
            x: cst.margin.left,
            y: ys[i],
            size: Size { width: pick_one(Field::Cross(false, inner.width), cst, cs[i]), height: cs[i].height },
        };
        out.push(l);
        i += 1;
        proof {
            assert(out@ =~= spec_r.take(i as int));
        }
    }
    proof {
        assert(out@ =~= spec_r);
    }
    out
}

pub fn child_layouts_of(s: &Style, nodes: &Vec<Slot>, ks: &Vec<NodeId>, cs: &Vec<Size<u32>>, inner: Size<u32>) -> (r: Vec<
    Layout,
>)
    requires
        all_valid(nodes@, ks@),
        cs.len() == ks.len(),
    ensures
        r@ == child_layouts(*s, child_styles(nodes@, ks@), cs@, inner),
{
    match s.display {
        Display::Grid => grid_layouts_of(s, nodes, ks, cs, inner),
        Display::Flex => flex_layouts_of(s, nodes, ks, cs, inner),
        _ => block_layouts_of(s, nodes, ks, cs, inner),
    }
}

} // verus!
