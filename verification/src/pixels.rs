//! How many pixels a window has, in plain numbers: those of the canvas, cut to whole ones, each
//! side by itself.
use crate::arithmetic::{
    law_exact_product, law_product_commutes, law_product_sign, law_product_with_zero,
    lemma_infinite, lemma_zero,
};
use crate::motion::{greatest, lemma_finite_size, lemma_greatest, lemma_multiplied, multiplied};
use crate::ray::ONE;
use crate::single::{law_value_of_fields, Single};
use crate::window::{CanvasSize, Window, WindowResolution};
use vstd::arithmetic::div_mod::lemma_fundamental_div_mod;
use vstd::arithmetic::power2::{lemma2_to64, lemma_pow2_adds, lemma_pow2_pos, pow2};
use vstd::prelude::*;

verus! {

/// The whole part of a number is the greatest count that is not beyond it. A number below one,
/// or none at all, has none, and one that is beyond every count has the greatest.
pub proof fn law_whole_part(x: Single)
    ensures
        ({
            let (count, one) = (x.whole() as int, pow2(149) as int);
            &&& x.nan() || x.value() < one ==> count == 0
            &&& !x.nan() && x.value() >= 0x1_0000_0000 * one ==> count == u32::MAX
            &&& !x.nan() && one <= x.value() < 0x1_0000_0000 * one ==> count * one <= x.value() < (
            count + 1) * one
        }),
{
    let (v, one) = (x.value(), pow2(149) as int);
    lemma_pow2_pos(149);
    lemma_fundamental_div_mod(v, one);
    let part = v / one;
    assert(0 <= v % one < one);
    assert((part >= 1 ==> v >= one) && (part <= 0 ==> v < one) && (part > u32::MAX ==> v
        >= 0x1_0000_0000 * one) && (part <= u32::MAX ==> v < 0x1_0000_0000 * one))
        by (nonlinear_arith)
        requires
            v == one * part + v % one,
            0 <= v % one < one,
            u32::MAX == 0xffff_ffff,
    ;
    assert(part * one <= v < (part + 1) * one) by (nonlinear_arith)
        requires
            v == one * part + v % one,
            0 <= v % one < one,
    ;
}

/// A count of pixels is the whole part of a side times a ratio, whose values' product is `exact`,
/// but for the rounding of the product.
pub open spec fn counts_pixels(count: u32, exact: int) -> bool {
    let one = pow2(149) as int;
    &&& exact <= 0 ==> count == 0
    &&& exact >= 0 ==> 0xff_ffff * (count * one * one) <= 0x100_0000 * exact + 0x80_0000 * one
    &&& count < u32::MAX ==> 0x100_0000 * exact <= 0x100_0001 * ((count + 1) * one * one)
        + 0x80_0000 * one
}

proof fn lemma_pixels(p: Single, exact: int)
    requires
        multiplied(p, exact),
        exact == 0 ==> p.value() == 0,
        exact > 0 ==> p.value() >= 0,
        exact < 0 ==> p.value() <= 0,
    ensures
        counts_pixels(p.whole(), exact),
{
    let (c, w, v) = (p.whole() as int, pow2(149) as int, p.value());
    lemma_pow2_pos(149);
    lemma_greatest();
    law_whole_part(p);
    let full = c * w * w;
    let next = (c + 1) * w * w;
    assert(c == 0 ==> full == 0) by (nonlinear_arith)
        requires
            full == c * w * w,
    ;
    assert(full >= 0 && next == full + w * w && w * w >= 0) by (nonlinear_arith)
        requires
            full == c * w * w,
            next == (c + 1) * w * w,
            c >= 0,
            w > 0,
    ;
    assert((c * w <= v ==> full <= v * w) && (v < (c + 1) * w ==> v * w <= next) && (v < w ==> v * w
        <= w * w)) by (nonlinear_arith)
        requires
            full == c * w * w,
            next == (c + 1) * w * w,
            w > 0,
    ;
    if p.finite() {
        lemma_finite_size(p);
        if v >= 0x1_0000_0000 * w {
            assert(c * w <= v) by (nonlinear_arith)
                requires
                    c == 0xffff_ffff,
                    v >= 0x1_0000_0000 * w,
                    w > 0,
            ;
        }
        if v < 0 {
            assert(v * w <= 0) by (nonlinear_arith)
                requires
                    v < 0,
                    w > 0,
            ;
        }
        assert(v >= 0 ==> v * w >= 0) by (nonlinear_arith)
            requires
                w > 0,
        ;
        assert(p.abs_value() * w == if v < 0 { -(v * w) } else { v * w }) by (nonlinear_arith)
            requires
                p.abs_value() == v && v >= 0 || p.abs_value() == -v && v < 0,
        ;
    } else {
        let g = greatest();
        lemma_infinite(p);
        lemma_zero(p);
        assert(g * w > 0) by (nonlinear_arith)
            requires
                g > 0,
                w > 0,
        ;
        if !p.negative() {
            lemma_many_pixels(g, c, w);
        }
    }
}

/// The greatest value is worth more pixels than can be counted.
pub(crate) proof fn lemma_many_pixels(g: int, c: int, w: int)
    requires
        g == greatest(),
        w == pow2(149),
        0 <= c <= u32::MAX,
    ensures
        c * w * w <= g * w,
        g >= 0x1_0000_0000 * w,
{
    lemma2_to64();
    lemma_pow2_pos(149);
    lemma_pow2_adds(149, 104);
    lemma_pow2_adds(32, 72);
    lemma_pow2_pos(72);
    let p = pow2(72) as int;
    assert(g >= 0x1_0000_0000 * w) by (nonlinear_arith)
        requires
            g == 0xff_ffff * (w * (0x1_0000_0000 * p)),
            p >= 1,
            w > 0,
    ;
    assert(c * w * w <= g * w) by (nonlinear_arith)
        requires
            0 <= c <= 0x1_0000_0000,
            g >= 0x1_0000_0000 * w,
            w > 0,
    ;
}

/// The sign of a product.
proof fn lemma_product_value_sign(a: Single, b: Single)
    requires
        a.finite(),
        b.finite(),
    ensures
        ({
            let (r, exact) = (a.product(b), a.value() * b.value());
            &&& exact == 0 ==> r.value() == 0
            &&& exact > 0 ==> r.value() >= 0
            &&& exact < 0 ==> r.value() <= 0
        }),
{
    let r = a.product(b);
    let (x, y) = (a.value(), b.value());
    lemma_zero(a);
    lemma_zero(b);
    lemma_zero(r);
    law_product_sign(a, b);
    if x == 0 {
        law_product_with_zero(a, b);
    } else if y == 0 {
        law_product_with_zero(b, a);
        law_product_commutes(a, b);
    }
    assert(x * y == 0 ==> x == 0 || y == 0) by (nonlinear_arith);
    assert(x * y > 0 ==> x > 0 && y > 0 || x < 0 && y < 0) by (nonlinear_arith);
    assert(x * y < 0 ==> x > 0 && y < 0 || x < 0 && y > 0) by (nonlinear_arith);
}

/// The pixels of one side.
pub(crate) proof fn lemma_side_pixels(side: Single, ratio: Single)
    requires
        side.finite(),
        ratio.finite(),
    ensures
        counts_pixels(side.product(ratio).whole(), side.value() * ratio.value()),
{
    lemma_multiplied(side, ratio);
    lemma_product_value_sign(side, ratio);
    lemma_pixels(side.product(ratio), side.value() * ratio.value());
}

/// After a resize a window has the pixels of the canvas: its width is the whole part of the
/// canvas' width times the window's ratio, and its height that of the canvas' height. The
/// window's ratio stays as it is.
pub proof fn law_window_has_pixels_of_canvas(resolution: WindowResolution, size: CanvasSize)
    requires
        size.width.finite(),
        size.height.finite(),
        resolution.ratio().finite(),
    ensures
        ({
            let (after, ratio) = (resolution.resized(size), resolution.ratio().value());
            &&& counts_pixels(after.physical_width, size.width.value() * ratio)
            &&& counts_pixels(after.physical_height, size.height.value() * ratio)
            &&& after.scale_factor == resolution.scale_factor
            &&& after.scale_factor_override == resolution.scale_factor_override
        }),
{
    lemma_side_pixels(size.width, resolution.ratio());
    lemma_side_pixels(size.height, resolution.ratio());
}

/// A side that is a whole number of pixels, where the ratio is one.
proof fn lemma_whole_side(side: Single, ratio: Single, n: u32)
    requires
        !side.nan(),
        !ratio.nan(),
        side.value() == n * pow2(149),
        ratio.value() == pow2(149),
    ensures
        side.product(ratio).whole() == n,
        side.whole() == n,
{
    let (one, w) = (Single { bits: ONE }, pow2(149) as int);
    lemma_pow2_pos(149);
    lemma_greatest();
    lemma_many_pixels(greatest(), n as int, w);
    lemma_zero(side);
    lemma_zero(ratio);
    assert(n * w >= 0 && n * w <= 0xffff_ffff * w) by (nonlinear_arith)
        requires
            0 <= n <= 0xffff_ffff,
            w > 0,
    ;
    if side.low_bits() == 0 {
        assert(side.abs_value() == n * w);
    }
    assert(side.abs_value() * ratio.abs_value() == side.abs_value() * w);
    law_exact_product(side, ratio, side.low_bits());
    let p = side.product(ratio);
    assert(p.low_bits() == side.low_bits());
    lemma_zero(p);
    assert(p.value() == side.value());
    law_whole_part(p);
    law_whole_part(side);
    lemma_same_count(p.whole() as int, n as int, p.value(), w);
    lemma_same_count(side.whole() as int, n as int, side.value(), w);
}

proof fn lemma_same_count(c: int, n: int, v: int, w: int)
    requires
        w > 0,
        0 <= n,
        v == n * w,
        v < w ==> c == 0,
        v >= w ==> c * w <= v < (c + 1) * w,
    ensures
        c == n,
{
    if v < w {
        assert(n == 0) by (nonlinear_arith)
            requires
                n * w < w,
                w > 0,
                n >= 0,
        ;
    } else {
        assert(c == n) by (nonlinear_arith)
            requires
                c * w <= n * w < (c + 1) * w,
                w > 0,
        ;
    }
}

/// Where the ratio is one, a canvas of whole sides gives the window its own size, and a window
/// is opened with the canvas' own size.
pub proof fn law_whole_canvas_is_kept(
    resolution: WindowResolution,
    size: CanvasSize,
    width: u32,
    height: u32,
)
    requires
        !size.width.nan() && size.width.value() == width * pow2(149),
        !size.height.nan() && size.height.value() == height * pow2(149),
        !resolution.ratio().nan() && resolution.ratio().value() == pow2(149),
    ensures
        resolution.resized(size).physical_width == width,
        resolution.resized(size).physical_height == height,
        WindowResolution::of_size(size).physical_width == width,
        WindowResolution::of_size(size).physical_height == height,
{
    lemma_whole_side(size.width, resolution.ratio(), width);
    lemma_whole_side(size.height, resolution.ratio(), height);
}

/// A window is opened with the whole part of each side of the canvas, and its ratio is one.
pub proof fn law_window_opens_with_canvas(size: CanvasSize)
    ensures
        ({
            let (opened, one) = (WindowResolution::of_size(size), pow2(149) as int);
            let (width, height) = (opened.physical_width as int, opened.physical_height as int);
            &&& !opened.ratio().nan() && opened.ratio().value() == one
            &&& opened.scale_factor_override is None
            &&& !size.width.nan() && one <= size.width.value() < 0x1_0000_0000 * one ==> width * one
                <= size.width.value() < (width + 1) * one
            &&& size.width.nan() || size.width.value() < one ==> width == 0
            &&& !size.width.nan() && size.width.value() >= 0x1_0000_0000 * one ==> width
                == u32::MAX
            &&& !size.height.nan() && one <= size.height.value() < 0x1_0000_0000 * one ==> height
                * one <= size.height.value() < (height + 1) * one
            &&& size.height.nan() || size.height.value() < one ==> height == 0
            &&& !size.height.nan() && size.height.value() >= 0x1_0000_0000 * one ==> height
                == u32::MAX
        }),
{
    lemma2_to64();
    lemma_pow2_adds(23, 126);
    law_value_of_fields(Single { bits: ONE }, 127, 0);
    law_whole_part(size.width);
    law_whole_part(size.height);
}

/// Each side of a window comes from its own side of the canvas and from the window's ratio
/// alone: what the other side is, and what the window was before, does not matter. The two are
/// treated alike, so that a canvas with its sides swapped gives a window with its sides swapped.
pub proof fn law_sides_are_independent(
    resolution: WindowResolution,
    other: WindowResolution,
    side: Single,
    height: Single,
    other_height: Single,
)
    requires
        resolution.ratio() == other.ratio(),
    ensures
        ({
            let upright = resolution.resized(CanvasSize { width: side, height });
            let flat = other.resized(CanvasSize { width: height, height: side });
            let wide = other.resized(CanvasSize { width: side, height: other_height });
            &&& upright.physical_width == wide.physical_width
            &&& upright.physical_width == flat.physical_height
            &&& upright.physical_height == flat.physical_width
        }),
{
}

/// A ratio that is set in place of the scale factor counts, and the scale factor does where none
/// is.
pub proof fn law_override_counts(resolution: WindowResolution)
    ensures
        resolution.scale_factor_override matches Some(ratio) ==> resolution.ratio() == ratio,
        resolution.scale_factor_override is None ==> resolution.ratio() == resolution.scale_factor,
{
}

/// A window that is resized stays the window that it is.
pub proof fn law_resized_window_is_the_same(window: Window, size: CanvasSize)
    ensures
        window.resized(size).entity == window.entity,
        window.resized(size).resolution == window.resolution.resized(size),
{
}

} // verus!
