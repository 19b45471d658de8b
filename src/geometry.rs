use vstd::prelude::*;

verus! {

/// The largest value a length can take; sums saturate here.
pub open spec fn sat(x: int) -> u32 {
    if x > u32::MAX as int {
        u32::MAX
    } else if x < 0 {
        0
    } else {
        x as u32
    }
}

/// `a * b / c`, rounded down and saturated at the largest length.
pub fn mul_div(a: u32, b: u32, c: u32) -> (r: u32)
    requires
        c > 0,
    ensures
        r == sat(a as int * b as int / c as int),
{
    proof {
        assert(0 <= a as int * b as int <= u32::MAX as int * u32::MAX as int) by (nonlinear_arith);
    }
    let x: u64 = (a as u64) * (b as u64) / (c as u64);
    if x > u32::MAX as u64 {
        u32::MAX
    } else {
        x as u32
    }
}

/// A width and a height.
#[derive(Clone, Copy, Debug, PartialEq, Eq, Structural)]
pub struct Size<T> {
    pub width: T,
    pub height: T,
}

/// Four edges of a box.
#[derive(Clone, Copy, Debug, PartialEq, Eq, Structural)]
pub struct Rect<T> {
    pub left: T,
    pub right: T,
    pub top: T,
    pub bottom: T,
}

/// A dimension: a fixed length, a percentage of the containing block in
/// hundredths of a percent (`Percent(10000)` is the whole block), or auto.
#[derive(Clone, Copy, Debug, PartialEq, Eq, Structural)]
pub enum Dimension {
    Length(u32),
    Percent(u32),
    Auto,
}

/// The space offered to a node along one axis.
#[derive(Clone, Copy, Debug, PartialEq, Eq, Structural)]
pub enum AvailableSpace {
    Definite(u32),
    MinContent,
    MaxContent,
}

pub open spec fn spec_resolve(d: Dimension, parent: Option<u32>) -> Option<u32> {
    match d {
        Dimension::Length(v) => Some(v),
        Dimension::Percent(p) => match parent {
            Some(b) => Some(sat(b as int * p as int / 10000)),
            None => None,
        },
        Dimension::Auto => None,
    }
}

/// Resolves a dimension against the size of the containing block, when it is definite.
pub fn resolve(d: Dimension, parent: Option<u32>) -> (r: Option<u32>)
    ensures
        r == spec_resolve(d, parent),
{
    match d {
        Dimension::Length(v) => Some(v),
        Dimension::Percent(p) => match parent {
            Some(b) => Some(mul_div(b, p, 10000)),
            None => None,
        },
        Dimension::Auto => None,
    }
}

} // verus!
