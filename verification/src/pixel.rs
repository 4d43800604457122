//! Pixels, the four classification modes, and the per-pixel metrics and
//! predicates that decide which pixels take part in a sort.

use vstd::prelude::*;

verus! {

/// One RGBA pixel. Alpha travels with the pixel but is never inspected by
/// the transform.
#[derive(Clone, Copy, PartialEq, Eq, Structural, Debug)]
pub struct Pixel {
    pub r: u8,
    pub g: u8,
    pub b: u8,
    pub a: u8,
}

/// Classification mode. Selects both the membership predicate and the sort
/// direction; the two are not independently configurable.
#[derive(Clone, Copy, PartialEq, Eq, Structural, Debug)]
pub enum Mode {
    White,
    Black,
    Bright,
    Dark,
}

/// Pass order of the two directional passes.
#[derive(Clone, Copy, PartialEq, Eq, Structural, Debug)]
pub enum Direction {
    /// Every row is processed, then every column.
    RowsFirst,
    /// Every column is processed, then every row.
    ColumnsFirst,
}

pub const WHITE_THRESHOLD: u32 = 0x123456;
pub const BLACK_THRESHOLD: u32 = 0x345678;
pub const BRIGHT_THRESHOLD: u8 = 127;
pub const DARK_THRESHOLD: u8 = 223;

/// Product metric: r * g * b. The sort key of every mode.
pub open spec fn product_metric(p: Pixel) -> int {
    (p.r as int) * (p.g as int) * (p.b as int)
}

/// Brightness metric: the truncated channel average, used only to classify
/// under the Bright and Dark modes.
pub open spec fn brightness_metric(p: Pixel) -> int {
    ((p.r as int) + (p.g as int) + (p.b as int)) / 3
}

/// The membership predicate of each mode, stated over the two metric values.
pub open spec fn passes(product: int, bright: int, m: Mode) -> bool {
    match m {
        Mode::White => product < WHITE_THRESHOLD,
        Mode::Black => product > BLACK_THRESHOLD,
        Mode::Bright => bright > BRIGHT_THRESHOLD,
        Mode::Dark => bright < DARK_THRESHOLD,
    }
}

/// Whether a pixel belongs to a sortable run under the given mode. Depends
/// only on the pixel's own RGB values, never on position or neighbours.
pub open spec fn sortable(p: Pixel, m: Mode) -> bool {
    passes(product_metric(p), brightness_metric(p), m)
}

/// White admits exactly the products strictly below its threshold: the last
/// admitted product value is one below the threshold, the threshold itself
/// is refused.
pub proof fn lemma_white_boundary(bright: int)
    ensures
        passes(0x123455, bright, Mode::White),
        !passes(0x123456, bright, Mode::White),
{
}

/// Black admits exactly the products strictly above its threshold.
pub proof fn lemma_black_boundary(bright: int)
    ensures
        passes(0x345679, bright, Mode::Black),
        !passes(0x345678, bright, Mode::Black),
{
}

/// Bright admits exactly the brightness values strictly above its threshold.
pub proof fn lemma_bright_boundary(product: int)
    ensures
        passes(product, 128, Mode::Bright),
        !passes(product, 127, Mode::Bright),
{
}

/// Dark admits exactly the brightness values strictly below its threshold.
pub proof fn lemma_dark_boundary(product: int)
    ensures
        passes(product, 222, Mode::Dark),
        !passes(product, 223, Mode::Dark),
{
}

/// The product metric of a pixel, exactly. Fits a u32: it is at most 255^3.
pub fn pixel_value(p: &Pixel) -> (v: u32)
    ensures
        v == product_metric(*p),
{
    proof {
        let r = p.r as int;
        let g = p.g as int;
        let b = p.b as int;
        assert(0 <= r * g <= 255 * 255 && 0 <= r * g * b <= 255 * 255 * 255) by (nonlinear_arith)
            requires
                0 <= r <= 255,
                0 <= g <= 255,
                0 <= b <= 255;
    }
    (p.r as u32) * (p.g as u32) * (p.b as u32)
}

/// The brightness metric of a pixel, exactly.
pub fn brightness(p: &Pixel) -> (v: u8)
    ensures
        v == brightness_metric(*p),
{
    let sum: u16 = p.r as u16 + p.g as u16 + p.b as u16;
    assert(sum / 3 <= 255);
    (sum / 3) as u8
}

/// Whether a pixel belongs to a sortable run under the given mode.
pub fn should_sort(p: &Pixel, mode: Mode) -> (r: bool)
    ensures
        r == sortable(*p, mode),
{
    match mode {
        Mode::White => pixel_value(p) < WHITE_THRESHOLD,
        Mode::Black => pixel_value(p) > BLACK_THRESHOLD,
        Mode::Bright => brightness(p) > BRIGHT_THRESHOLD,
        Mode::Dark => brightness(p) < DARK_THRESHOLD,
    }
}

} // verus!
