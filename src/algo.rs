use vstd::prelude::*;
use crate::geometry::{mul_div, sat};
use crate::style::GridTrack;

verus! {

/// `v` held under `max`, then over `min` (the minimum wins).
pub open spec fn spec_clamp(v: u32, min: Option<u32>, max: Option<u32>) -> u32 {
    let a = if max.is_some() && v > max.unwrap() { max.unwrap() } else { v };
    if min.is_some() && a < min.unwrap() { min.unwrap() } else { a }
}

pub fn clamp(v: u32, min: Option<u32>, max: Option<u32>) -> (r: u32)
    ensures
        r == spec_clamp(v, min, max),
{
    let mut a = v;
    if let Some(m) = max {
        if a > m {
            a = m;
        }
    }
    if let Some(m) = min {
        if a < m {
            a = m;
        }
    }
    a
}

/// The sum of the values, saturated at the largest length.
pub open spec fn spec_sum(s: Seq<u32>) -> u32
    decreases s.len(),
{
    if s.len() == 0 {
        0
    } else {
        sat(spec_sum(s.drop_last()) + s.last())
    }
}

/// The largest of the values, zero for none.
pub open spec fn spec_max(s: Seq<u32>) -> u32
    decreases s.len(),
{
    if s.len() == 0 {
        0
    } else {
        let m = spec_max(s.drop_last());
        if s.last() > m { s.last() } else { m }
    }
}

pub fn sum(v: &Vec<u32>) -> (r: u32)
    ensures
        r == spec_sum(v@),
{
    let mut acc: u32 = 0;
    let mut i: usize = 0;
    while i < v.len()
        invariant
            i <= v.len(),
            acc == spec_sum(v@.take(i as int)),
        decreases v.len() - i,
    {
        proof {
            assert(v@.take(i + 1).drop_last() =~= v@.take(i as int));
        }
        acc = acc.saturating_add(v[i]);
        i += 1;
    }
    proof {
        assert(v@.take(i as int) =~= v@);
    }
    acc
}

pub fn max_of(v: &Vec<u32>) -> (r: u32)
    ensures
        r == spec_max(v@),
{
    let mut acc: u32 = 0;
    let mut i: usize = 0;
    while i < v.len()
        invariant
            i <= v.len(),
            acc == spec_max(v@.take(i as int)),
        decreases v.len() - i,
    {
        proof {
            assert(v@.take(i + 1).drop_last() =~= v@.take(i as int));
        }
        if v[i] > acc {
            acc = v[i];
        }
        i += 1;
    }
    proof {
        assert(v@.take(i as int) =~= v@);
    }
    acc
}

/// The offset of item `i` in a run of boxes laid one after the other.
/// Item `i` starts after the previous item's size and trailing margin, the gap,
/// and its own leading margin. Where `collapse` is set, the gap is ignored and
/// the two adjoining margins count once, as the larger of the two.
pub open spec fn run_offset(
    sizes: Seq<u32>,
    lead: Seq<u32>,
    trail: Seq<u32>,
    gap: u32,
    collapse: bool,
    i: int,
) -> u32
    decreases i,
{
    if i <= 0 {
        lead[0]
    } else {
        let between = if collapse {
            if trail[i - 1] > lead[i] { trail[i - 1] as int } else { lead[i] as int }
        } else {
            trail[i - 1] + gap + lead[i]
        };
        sat(run_offset(sizes, lead, trail, gap, collapse, i - 1) + sizes[i - 1] + between)
    }
}

/// The length of a run: from its start to the far margin of its last item.
pub open spec fn run_extent(
    sizes: Seq<u32>,
    lead: Seq<u32>,
    trail: Seq<u32>,
    gap: u32,
    collapse: bool,
) -> u32 {
    let n = sizes.len() as int;
    if n == 0 {
        0
    } else {
        sat(run_offset(sizes, lead, trail, gap, collapse, n - 1) + sizes[n - 1] + trail[n - 1])
    }
}

/// Lays boxes one after the other; returns each offset and the run's extent.
pub fn run(sizes: &Vec<u32>, lead: &Vec<u32>, trail: &Vec<u32>, gap: u32, collapse: bool) -> (r: (
    Vec<u32>,
    u32,
))
    requires
        lead.len() == sizes.len(),
        trail.len() == sizes.len(),
    ensures
        r.0@ == Seq::new(sizes.len() as nat, |i: int| run_offset(sizes@, lead@, trail@, gap, collapse, i)),
        r.1 == run_extent(sizes@, lead@, trail@, gap, collapse),
{
    let n = sizes.len();
    let mut out: Vec<u32> = Vec::new();
    if n == 0 {
        proof {
            assert(out@ =~= Seq::new(0, |i: int| run_offset(sizes@, lead@, trail@, gap, collapse, i)));
        }
        return (out, 0);
    }
    let mut cur: u32 = lead[0];
    out.push(cur);
    let mut i: usize = 1;
    while i < n
        invariant
            n == sizes.len(),
            lead.len() == n,
            trail.len() == n,
            1 <= i <= n,
            cur == run_offset(sizes@, lead@, trail@, gap, collapse, i - 1),
            out@ == Seq::new(i as nat, |k: int| run_offset(sizes@, lead@, trail@, gap, collapse, k)),
        decreases n - i,
    {
        let between: u32 = if collapse {
            if trail[i - 1] > lead[i] { trail[i - 1] } else { lead[i] }
        } else {
            trail[i - 1].saturating_add(gap).saturating_add(lead[i])
        };
        let next = cur.saturating_add(sizes[i - 1]).saturating_add(between);
        proof {
            let ghost b: int = if collapse {
                if trail[i - 1] > lead[i as int] { trail[i - 1] as int } else { lead[i as int] as int }
            } else {
                trail[i - 1] + gap + lead[i as int]
            };
            assert(next == sat(cur + sizes[i - 1] + b)) by {
                if !collapse {
                    assert(between == sat(trail[i - 1] + gap + lead[i as int]));
                }
            }
        }
        cur = next;
        out.push(cur);
        i += 1;
        proof {
            assert(out@ =~= Seq::new(i as nat, |k: int| run_offset(sizes@, lead@, trail@, gap, collapse, k)));
        }
    }
    let extent = cur.saturating_add(sizes[n - 1]).saturating_add(trail[n - 1]);
    (out, extent)
}

/// An item's main size when the line has `free` space to spare: its basis plus
/// its share of the free space, by the weight of its grow factor.
pub open spec fn grow_one(base: u32, grow: u32, free: u32, total_grow: u32) -> u32 {
    if total_grow == 0 {
        base
    } else {
        sat(base + sat(free as int * grow as int / total_grow as int))
    }
}

/// An item's main size when the line overflows by `over`: its basis less its
/// share of the overflow, by the weight of shrink factor times basis.
pub open spec fn shrink_one(base: u32, weight: u32, over: u32, total_weight: u32) -> u32 {
    if total_weight == 0 {
        base
    } else {
        sat(base - sat(over as int * weight as int / total_weight as int))
    }
}

/// The shrink weight of an item: shrink factor times basis.
pub open spec fn shrink_weight(shrink: u32, base: u32) -> u32 {
    sat(shrink as int * base as int)
}

/// The main sizes of the items of one flex line, from their bases, grow and
/// shrink factors and bounds, `inner` the line's length and `used` what the
/// items' bases, margins and gaps take of it. Free space goes to the items by
/// grow factor, overflow is taken from them by shrink weight; each result is
/// then held within the item's bounds. This is one round of distribution;
/// `spec_flex_main_sizes` repeats it until no bound changes an item.
pub open spec fn spec_flex_sizes(
    bases: Seq<u32>,
    grows: Seq<u32>,
    shrinks: Seq<u32>,
    mins: Seq<Option<u32>>,
    maxs: Seq<Option<u32>>,
    inner: u32,
    used: u32,
) -> Seq<u32> {
    let weights = Seq::new(bases.len(), |i: int| shrink_weight(shrinks[i], bases[i]));
    Seq::new(
        bases.len(),
        |i: int|
            spec_clamp(
                if used <= inner {
                    grow_one(bases[i], grows[i], (inner - used) as u32, spec_sum(grows))
                } else {
                    shrink_one(bases[i], weights[i], (used - inner) as u32, spec_sum(weights))
                },
                mins[i],
                maxs[i],
            ),
    )
}

pub fn flex_sizes(
    bases: &Vec<u32>,
    grows: &Vec<u32>,
    shrinks: &Vec<u32>,
    mins: &Vec<Option<u32>>,
    maxs: &Vec<Option<u32>>,
    inner: u32,
    used: u32,
) -> (r: Vec<u32>)
    requires
        grows.len() == bases.len(),
        shrinks.len() == bases.len(),
        mins.len() == bases.len(),
        maxs.len() == bases.len(),
    ensures
        r@ == spec_flex_sizes(bases@, grows@, shrinks@, mins@, maxs@, inner, used),
{
    let n = bases.len();
    let mut weights: Vec<u32> = Vec::new();
    let mut i: usize = 0;
    while i < n
        invariant
            n == bases.len(),
            shrinks.len() == n,
            i <= n,
            weights@ == Seq::new(i as nat, |k: int| shrink_weight(shrinks[k], bases[k])),
        decreases n - i,
    {
        weights.push(mul_div(shrinks[i], bases[i], 1));
        i += 1;
        proof {
            assert(weights@ =~= Seq::new(i as nat, |k: int| shrink_weight(shrinks[k], bases[k])));
        }
    }
    let ghost ws = Seq::new(bases@.len(), |k: int| shrink_weight(shrinks[k], bases[k]));
    proof {
        assert(weights@ =~= ws);
    }
    let total_grow = sum(grows);
    let total_weight = sum(&weights);
    let mut out: Vec<u32> = Vec::new();
    let mut i: usize = 0;
    while i < n
        invariant
            n == bases.len(),
            grows.len() == n,
            shrinks.len() == n,
            mins.len() == n,
            maxs.len() == n,
            weights@ == ws,
            ws.len() == n,
            ws == Seq::new(bases@.len(), |k: int| shrink_weight(shrinks@[k], bases@[k])),
            total_grow == spec_sum(grows@),
            total_weight == spec_sum(ws),
            i <= n,
            out@ == spec_flex_sizes(bases@, grows@, shrinks@, mins@, maxs@, inner, used).take(i as int),
        decreases n - i,
    {
        let v = if used <= inner {
            if total_grow == 0 {
                bases[i]
            } else {
                bases[i].saturating_add(mul_div(inner - used, grows[i], total_grow))
            }
        } else {
            if total_weight == 0 {
                bases[i]
            } else {
                bases[i].saturating_sub(mul_div(used - inner, weights[i], total_weight))
            }
        };
        proof {
            let ghost full = spec_flex_sizes(bases@, grows@, shrinks@, mins@, maxs@, inner, used);
            assert(weights[i as int] == ws[i as int]);
            assert(v == (if used <= inner {
                grow_one(bases[i as int], grows[i as int], (inner - used) as u32, spec_sum(grows@))
            } else {
                shrink_one(bases[i as int], ws[i as int], (used - inner) as u32, spec_sum(ws))
            }));
        }
        out.push(clamp(v, mins[i], maxs[i]));
        i += 1;
        proof {
            assert(out@ =~= spec_flex_sizes(bases@, grows@, shrinks@, mins@, maxs@, inner, used).take(i as int));
        }
    }
    proof {
        assert(out@ =~= spec_flex_sizes(bases@, grows@, shrinks@, mins@, maxs@, inner, used));
    }
    out
}

/// What a column takes before the free space is shared: its fixed length, or
/// its content for an auto column (and for a flexible one when the grid's
/// width is not definite).
pub open spec fn track_base(t: GridTrack, content: u32, definite: bool) -> u32 {
    match t {
        GridTrack::Length(v) => v,
        GridTrack::Auto => content,
        GridTrack::Fr(_) => if definite { 0 } else { content },
    }
}

/// The flex factor of a column: zero but for a flexible one.
pub open spec fn track_fr(t: GridTrack) -> u32 {
    match t {
        GridTrack::Fr(f) => f,
        _ => 0,
    }
}

/// Column widths. With a definite `inner` width, fixed and auto columns are
/// sized first; what is left, after gaps, goes to the flexible columns in
/// proportion to their factors. Without one, a flexible column is sized to its
/// content.
pub open spec fn spec_track_sizes(
    tracks: Seq<GridTrack>,
    content: Seq<u32>,
    inner: Option<u32>,
    gap: u32,
) -> Seq<u32> {
    let bases = Seq::new(tracks.len(), |i: int| track_base(tracks[i], content[i], inner.is_some()));
    let frs = Seq::new(tracks.len(), |i: int| track_fr(tracks[i]));
    let gaps = if tracks.len() == 0 { 0 } else { sat(gap * (tracks.len() - 1)) };
    let free = match inner {
        Some(w) => sat(w - sat(spec_sum(bases) + gaps)),
        None => 0,
    };
    let total = spec_sum(frs);
    Seq::new(
        tracks.len(),
        |i: int|
            if inner.is_some() && track_fr(tracks[i]) > 0 && total > 0 {
                sat(free as int * frs[i] as int / total as int)
            } else {
                bases[i]
            },
    )
}

pub fn track_sizes(tracks: &Vec<GridTrack>, content: &Vec<u32>, inner: Option<u32>, gap: u32) -> (r: Vec<u32>)
    requires
        content.len() == tracks.len(),
    ensures
        r@ == spec_track_sizes(tracks@, content@, inner, gap),
{
    let n = tracks.len();
    let ghost bs = Seq::new(tracks@.len(), |i: int| track_base(tracks@[i], content@[i], inner.is_some()));
    let ghost fs = Seq::new(tracks@.len(), |i: int| track_fr(tracks@[i]));
    let mut bases: Vec<u32> = Vec::new();
    let mut frs: Vec<u32> = Vec::new();
    let mut i: usize = 0;
    while i < n
        invariant
            n == tracks.len(),
            content.len() == n,
            i <= n,
            bases@ == bs.take(i as int),
            frs@ == fs.take(i as int),
            bs == Seq::new(tracks@.len(), |i: int| track_base(tracks@[i], content@[i], inner.is_some())),
            fs == Seq::new(tracks@.len(), |i: int| track_fr(tracks@[i])),
        decreases n - i,
    {
        let (b, f) = match tracks[i] {
            GridTrack::Length(v) => (v, 0u32),
            GridTrack::Auto => (content[i], 0u32),
            GridTrack::Fr(f) => (if inner.is_some() { 0 } else { content[i] }, f),
        };
        assert(b == bs[i as int] && f == fs[i as int]);
        bases.push(b);
        frs.push(f);
        i += 1;
        proof {
            assert(bases@ =~= bs.take(i as int));
            assert(frs@ =~= fs.take(i as int));
        }
    }
    proof {
        assert(bases@ =~= bs);
        assert(frs@ =~= fs);
    }
    let gaps: u32 = if n == 0 {
        0
    } else if n - 1 > u32::MAX as usize {
        if gap == 0 { 0 } else { u32::MAX }
    } else {
        mul_div(gap, (n - 1) as u32, 1)
    };
    proof {
        if n != 0 {
            let p: int = gap as int * (n - 1);
            assert(p / 1 == p);
            if n - 1 > u32::MAX as usize && gap != 0 {
                assert(p >= n - 1) by (nonlinear_arith)
                    requires gap >= 1, n >= 1, p == gap as int * (n - 1);
            }
            if gap == 0 {
                assert(p == 0);
            }
        }
        assert(gaps == (if n == 0 { 0 } else { sat(gap * (n - 1)) }));
    }
    let free: u32 = match inner {
        Some(w) => w.saturating_sub(sum(&bases).saturating_add(gaps)),
        None => 0,
    };
    let total = sum(&frs);
    let ghost spec_r = spec_track_sizes(tracks@, content@, inner, gap);
    let mut out: Vec<u32> = Vec::new();
    let mut i: usize = 0;
    while i < n
        invariant
            n == tracks.len(),
            content.len() == n,
            bases@ == bs,
            frs@ == fs,
            bs.len() == n,
            fs.len() == n,
            bs == Seq::new(tracks@.len(), |i: int| track_base(tracks@[i], content@[i], inner.is_some())),
            fs == Seq::new(tracks@.len(), |i: int| track_fr(tracks@[i])),
            total == spec_sum(fs),
            free == (match inner {
                Some(w) => sat(w - sat(spec_sum(bs) + (if n == 0 { 0 } else { sat(gap * (n - 1)) }))),
                None => 0,
            }),
            spec_r == spec_track_sizes(tracks@, content@, inner, gap),
            i <= n,
            out@ == spec_r.take(i as int),
        decreases n - i,
    {
        let v = if inner.is_some() && frs[i] > 0 && total > 0 {
            mul_div(free, frs[i], total)
        } else {
            bases[i]
        };
        out.push(v);
        i += 1;
        proof {
            assert(out@ =~= spec_r.take(i as int));
        }
    }
    proof {
        assert(out@ =~= spec_r);
    }
    out
}

/// The largest of the values whose key is `k`, zero for none.
pub open spec fn group_max(s: Seq<u32>, keys: Seq<usize>, k: int) -> u32
    decreases s.len(),
{
    if s.len() == 0 || keys.len() < s.len() {
        0
    } else {
        let m = group_max(s.drop_last(), keys, k);
        if keys[s.len() - 1] == k && s.last() > m { s.last() } else { m }
    }
}

/// For each of `n` groups, the largest value in it.
pub fn group_maxes(s: &Vec<u32>, keys: &Vec<usize>, n: usize) -> (r: Vec<u32>)
    requires
        keys.len() == s.len(),
    ensures
        r@ == Seq::new(n as nat, |k: int| group_max(s@, keys@, k)),
{
    let mut acc: Vec<u32> = Vec::new();
    let mut j: usize = 0;
    while j < n
        invariant
            j <= n,
            acc@ == Seq::new(j as nat, |k: int| 0u32),
        decreases n - j,
    {
        acc.push(0);
        j += 1;
        proof {
            assert(acc@ =~= Seq::new(j as nat, |k: int| 0u32));
        }
    }
    let mut i: usize = 0;
    while i < s.len()
        invariant
            keys.len() == s.len(),
            i <= s.len(),
            acc@ == Seq::new(n as nat, |k: int| group_max(s@.take(i as int), keys@, k)),
        decreases s.len() - i,
    {
        let k = keys[i];
        proof {
            assert(s@.take(i + 1).drop_last() =~= s@.take(i as int));
        }
        if k < n && s[i] > acc[k] {
            acc.set(k, s[i]);
        }
        i += 1;
        proof {
            assert(acc@ =~= Seq::new(n as nat, |q: int| group_max(s@.take(i as int), keys@, q)));
        }
    }
    proof {
        assert(s@.take(i as int) =~= s@);
    }
    acc
}

/// The inputs of one line's main-size resolution.
pub struct FlexLine {
    pub bases: Vec<u32>,
    pub grows: Vec<u32>,
    pub shrinks: Vec<u32>,
    pub mins: Vec<Option<u32>>,
    pub maxs: Vec<Option<u32>>,
    pub leads: Vec<u32>,
    pub trails: Vec<u32>,
    pub gap: u32,
    pub inner: u32,
}

/// What a line's inputs hold.
pub struct LineView {
    pub bases: Seq<u32>,
    pub grows: Seq<u32>,
    pub shrinks: Seq<u32>,
    pub mins: Seq<Option<u32>>,
    pub maxs: Seq<Option<u32>>,
    pub leads: Seq<u32>,
    pub trails: Seq<u32>,
    pub gap: u32,
    pub inner: u32,
}

impl View for FlexLine {
    type V = LineView;

    open spec fn view(&self) -> LineView {
        LineView {
            bases: self.bases@,
            grows: self.grows@,
            shrinks: self.shrinks@,
            mins: self.mins@,
            maxs: self.maxs@,
            leads: self.leads@,
            trails: self.trails@,
            gap: self.gap,
            inner: self.inner,
        }
    }
}

impl FlexLine {
    pub open spec fn wf(&self) -> bool {
        let n = self.bases@.len();
        &&& self.grows@.len() == n
        &&& self.shrinks@.len() == n
        &&& self.mins@.len() == n
        &&& self.maxs@.len() == n
        &&& self.leads@.len() == n
        &&& self.trails@.len() == n
    }
}

pub open spec fn nones(n: nat) -> Seq<Option<u32>> {
    Seq::new(n, |i: int| None::<u32>)
}

/// The main sizes one round of distribution gives: frozen items keep their
/// target, the others share the line's free space (or overflow) by their
/// factors, before any bound is applied.
pub open spec fn round_raw(l: LineView, frozen: Seq<bool>, targets: Seq<u32>) -> Seq<u32> {
    let n = l.bases.len();
    let bs = Seq::new(n, |i: int| if frozen[i] { targets[i] } else { l.bases[i] });
    let gs = Seq::new(n, |i: int| if frozen[i] { 0u32 } else { l.grows[i] });
    let ss = Seq::new(n, |i: int| if frozen[i] { 0u32 } else { l.shrinks[i] });
    spec_flex_sizes(bs, gs, ss, nones(n), nones(n), l.inner, run_extent(bs, l.leads, l.trails, l.gap, false))
}

/// The round's sizes held within each unfrozen item's bounds.
pub open spec fn round_clamped(l: LineView, frozen: Seq<bool>, targets: Seq<u32>) -> Seq<u32> {
    let raw = round_raw(l, frozen, targets);
    Seq::new(
        l.bases.len(),
        |i: int| if frozen[i] { targets[i] } else { spec_clamp(raw[i], l.mins[i], l.maxs[i]) },
    )
}

/// Item `i` is not frozen and its bound changed its size this round.
pub open spec fn violates(l: LineView, frozen: Seq<bool>, targets: Seq<u32>, i: int) -> bool {
    !frozen[i] && round_clamped(l, frozen, targets)[i] != round_raw(l, frozen, targets)[i]
}

/// The main sizes of a line: distribute, freeze each item a bound changed at
/// that bound, and distribute the rest again, until no bound changes an item
/// or `rounds` more rounds have run. Each round that goes on freezes at least
/// one more item, so as many rounds as items always reach the fixed point.
pub open spec fn spec_resolve_line(l: LineView, frozen: Seq<bool>, targets: Seq<u32>, rounds: nat) -> Seq<u32>
    decreases rounds,
{
    let clamped = round_clamped(l, frozen, targets);
    if rounds == 0 || !(exists|i: int| 0 <= i < l.bases.len() && violates(l, frozen, targets, i)) {
        clamped
    } else {
        spec_resolve_line(
            l,
            Seq::new(l.bases.len(), |i: int| frozen[i] || violates(l, frozen, targets, i)),
            Seq::new(
                l.bases.len(),
                |i: int| if frozen[i] || violates(l, frozen, targets, i) { clamped[i] } else { targets[i] },
            ),
            (rounds - 1) as nat,
        )
    }
}

/// The line's main sizes, starting with no item frozen and allowing one round
/// per item.
pub open spec fn spec_flex_main_sizes(l: LineView) -> Seq<u32> {
    spec_resolve_line(
        l,
        Seq::new(l.bases.len(), |i: int| false),
        l.bases,
        l.bases.len(),
    )
}

fn round_exec(l: &FlexLine, frozen: &Vec<bool>, targets: &Vec<u32>) -> (r: (Vec<u32>, Vec<u32>))
    requires
        l.wf(),
        frozen@.len() == l.bases@.len(),
        targets@.len() == l.bases@.len(),
    ensures
        r.0@ == round_raw(l@, frozen@, targets@),
        r.1@ == round_clamped(l@, frozen@, targets@),
{
    let n = l.bases.len();
    let ghost bs_s = Seq::new(n as nat, |i: int| if frozen@[i] { targets@[i] } else { l.bases@[i] });
    let ghost gs_s = Seq::new(n as nat, |i: int| if frozen@[i] { 0u32 } else { l.grows@[i] });
    let ghost ss_s = Seq::new(n as nat, |i: int| if frozen@[i] { 0u32 } else { l.shrinks@[i] });
    let mut bs: Vec<u32> = Vec::new();
    let mut gs: Vec<u32> = Vec::new();
    let mut ss: Vec<u32> = Vec::new();
    let mut no: Vec<Option<u32>> = Vec::new();
    let mut i: usize = 0;
    while i < n
        invariant
            l.wf(),
            n == l.bases@.len(),
            frozen@.len() == n,
            targets@.len() == n,
            i <= n,
            bs_s == Seq::new(n as nat, |i: int| if frozen@[i] { targets@[i] } else { l.bases@[i] }),
            gs_s == Seq::new(n as nat, |i: int| if frozen@[i] { 0u32 } else { l.grows@[i] }),
            ss_s == Seq::new(n as nat, |i: int| if frozen@[i] { 0u32 } else { l.shrinks@[i] }),
            bs@ == bs_s.take(i as int),
            gs@ == gs_s.take(i as int),
            ss@ == ss_s.take(i as int),
            no@ == nones(i as nat),
        decreases n - i,
    {
        if frozen[i] {
            bs.push(targets[i]);
            gs.push(0);
            ss.push(0);
        } else {
            bs.push(l.bases[i]);
            gs.push(l.grows[i]);
            ss.push(l.shrinks[i]);
        }
        no.push(None);
        i += 1;
        proof {
            assert(bs@ =~= bs_s.take(i as int));
            assert(gs@ =~= gs_s.take(i as int));
            assert(ss@ =~= ss_s.take(i as int));
            assert(no@ =~= nones(i as nat));
        }
    }
    proof {
        assert(bs@ =~= bs_s);
        assert(gs@ =~= gs_s);
        assert(ss@ =~= ss_s);
    }
    let (_, used) = run(&bs, &l.leads, &l.trails, l.gap, false);
    let raw = flex_sizes(&bs, &gs, &ss, &no, &no, l.inner, used);
    let ghost cl_s = round_clamped(l@, frozen@, targets@);
    let mut cl: Vec<u32> = Vec::new();
    let mut i: usize = 0;
    while i < n
        invariant
            l.wf(),
            n == l.bases@.len(),
            frozen@.len() == n,
            targets@.len() == n,
            raw@ == round_raw(l@, frozen@, targets@),
            raw@.len() == n,
            cl_s == round_clamped(l@, frozen@, targets@),
            i <= n,
            cl@ == cl_s.take(i as int),
        decreases n - i,
    {
        if frozen[i] {
            cl.push(targets[i]);
        } else {
            cl.push(clamp(raw[i], l.mins[i], l.maxs[i]));
        }
        i += 1;
        proof {
            assert(cl@ =~= cl_s.take(i as int));
        }
    }
    proof {
        assert(cl@ =~= cl_s);
    }
    (raw, cl)
}

/// Resolves the main sizes of a line, round by round.
pub fn flex_main_sizes(l: &FlexLine) -> (r: Vec<u32>)
    requires
        l.wf(),
    ensures
        r@ == spec_flex_main_sizes(l@),
        r@.len() == l.bases@.len(),
{
    let n = l.bases.len();
    let mut frozen: Vec<bool> = Vec::new();
    let mut i: usize = 0;
    while i < n
        invariant
            i <= n,
            frozen@ == Seq::new(i as nat, |k: int| false),
        decreases n - i,
    {
        frozen.push(false);
        i += 1;
        proof {
            assert(frozen@ =~= Seq::new(i as nat, |k: int| false));
        }
    }
    let mut targets = copy_u32(&l.bases);
    let mut rounds: usize = n;
    let ghost goal = spec_flex_main_sizes(l@);
    loop
        invariant
            l.wf(),
            n == l.bases@.len(),
            frozen@.len() == n,
            targets@.len() == n,
            rounds <= n,
            goal == spec_flex_main_sizes(l@),
            goal == spec_resolve_line(l@, frozen@, targets@, rounds as nat),
        decreases rounds,
    {
        let (raw, cl) = round_exec(l, &frozen, &targets);
        let ghost fz = frozen@;
        let ghost tg = targets@;
        let mut any = false;
        let mut nf: Vec<bool> = Vec::new();
        let mut nt: Vec<u32> = Vec::new();
        let mut i: usize = 0;
        while i < n
            invariant
                l.wf(),
                n == l.bases@.len(),
                fz == frozen@,
                tg == targets@,
                fz.len() == n,
                tg.len() == n,
                raw@ == round_raw(l@, fz, tg),
                cl@ == round_clamped(l@, fz, tg),
                raw@.len() == n,
                cl@.len() == n,
                i <= n,
                any == exists|k: int| 0 <= k < i && violates(l@, fz, tg, k),
                nf@ == Seq::new(i as nat, |k: int| fz[k] || violates(l@, fz, tg, k)),
                nt@ == Seq::new(
                    i as nat,
                    |k: int| if fz[k] || violates(l@, fz, tg, k) { cl@[k] } else { tg[k] },
                ),
            decreases n - i,
        {
            let v = !frozen[i] && cl[i] != raw[i];
            proof {
                assert(v == violates(l@, fz, tg, i as int));
            }
            if v {
                any = true;
            }
            let f = frozen[i] || v;
            nf.push(f);
            nt.push(if f { cl[i] } else { targets[i] });
            i += 1;
            proof {
                assert(nf@ =~= Seq::new(i as nat, |k: int| fz[k] || violates(l@, fz, tg, k)));
                assert(nt@ =~= Seq::new(
                    i as nat,
                    |k: int| if fz[k] || violates(l@, fz, tg, k) { cl@[k] } else { tg[k] },
                ));
            }
        }
        if rounds == 0 || !any {
            proof {
                assert(goal == spec_resolve_line(l@, fz, tg, rounds as nat));
                if rounds != 0 {
                    assert(!(exists|k: int| 0 <= k < l.bases@.len() && violates(l@, fz, tg, k)));
                }
                assert(goal == round_clamped(l@, fz, tg));
            }
            return cl;
        }
        frozen = nf;
        targets = nt;
        rounds = rounds - 1;
    }
}

pub fn copy_u32(v: &Vec<u32>) -> (r: Vec<u32>)
    ensures
        r@ == v@,
{
    let mut r: Vec<u32> = Vec::new();
    let mut i: usize = 0;
    while i < v.len()
        invariant
            i <= v.len(),
            r@ == v@.take(i as int),
        decreases v.len() - i,
    {
        r.push(v[i]);
        i += 1;
        proof {
            assert(r@ =~= v@.take(i as int));
        }
    }
    proof {
        assert(r@ =~= v@);
    }
    r
}

} // verus!
