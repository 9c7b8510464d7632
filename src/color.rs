use vstd::prelude::*;

verus! {

/// Width of one interpolation band of the palette.
pub const BAND_WIDTH: u32 = 63;

/// Linear interpolation between two channel values, `step` sixty-thirds of
/// the way from `low` to `high`, rounded down.
pub open spec fn lerp(step: int, low: int, high: int) -> int {
    low + ((high - low) * step) / (BAND_WIDTH as int)
}

proof fn lemma_lerp_rising(step: int, low: int, high: int)
    requires
        0 <= step <= 63,
        0 <= low <= high <= 255,
    ensures
        low <= lerp(step, low, high) <= high,
{
    assert(0 <= (high - low) * step <= (high - low) * 63) by (nonlinear_arith)
        requires
            0 <= step <= 63,
            0 <= high - low,
    ;
}

proof fn lemma_lerp_falling(step: int, low: int, high: int)
    requires
        0 <= step <= 63,
        0 <= high < low <= 255,
    ensures
        high <= lerp(step, low, high) <= low,
        lerp(step, low, high) == low - ((low - high) * step + 62) / 63,
{
    let a = (low - high) * step;
    assert(0 <= a <= (low - high) * 63) by (nonlinear_arith)
        requires
            0 <= step <= 63,
            0 <= low - high,
            a == (low - high) * step,
    ;
    assert((high - low) * step == -a) by (nonlinear_arith)
        requires
            a == (low - high) * step,
    ;
    assert((-a) / 63 == -((a + 62) / 63)) by (nonlinear_arith)
        requires
            0 <= a,
    ;
}

/// Interpolates one color channel `step` sixty-thirds of the way from `low`
/// to `high`.
pub fn interpolate(step: u32, low: u8, high: u8) -> (r: u8)
    requires
        step <= BAND_WIDTH,
    ensures
        r as int == lerp(step as int, low as int, high as int),
{
    if high >= low {
        proof {
            lemma_lerp_rising(step as int, low as int, high as int);
        }
        let scaled: u32 = (high - low) as u32 * step;
        (low as u32 + scaled / BAND_WIDTH) as u8
    } else {
        proof {
            lemma_lerp_falling(step as int, low as int, high as int);
        }
        let scaled: u32 = (low - high) as u32 * step;
        (low as u32 - (scaled + 62) / BAND_WIDTH) as u8
    }
}

/// Number of anchors of the palette.
pub const ANCHOR_COUNT: usize = 5;

/// Largest normalized value; everything from here on is clamped.
pub const MAX_LEVEL: u32 = 255;

/// The largest change of one channel between two neighbouring levels: the
/// steepest band of the palette moves a channel by 133 over 63 steps.
pub const PALETTE_STEP: u32 = 3;

/// A color with 8-bit red, green and blue channels.
#[derive(Clone, Copy, Debug, PartialEq, Eq, Structural)]
pub struct Rgb {
    pub r: u8,
    pub g: u8,
    pub b: u8,
}

/// The five anchor colors of the palette, from the first to the last.
pub open spec fn anchor_spec(k: int) -> Rgb {
    if k == 0 {
        Rgb { r: 76, g: 201, b: 240 }
    } else if k == 1 {
        Rgb { r: 67, g: 97, b: 238 }
    } else if k == 2 {
        Rgb { r: 58, g: 12, b: 163 }
    } else if k == 3 {
        Rgb { r: 114, g: 9, b: 183 }
    } else {
        Rgb { r: 247, g: 37, b: 133 }
    }
}

/// Returns anchor `k` of the palette.
pub fn anchor(k: usize) -> (c: Rgb)
    requires
        k < ANCHOR_COUNT,
    ensures
        c == anchor_spec(k as int),
{
    match k {
        0 => Rgb { r: 76, g: 201, b: 240 },
        1 => Rgb { r: 67, g: 97, b: 238 },
        2 => Rgb { r: 58, g: 12, b: 163 },
        3 => Rgb { r: 114, g: 9, b: 183 },
        _ => Rgb { r: 247, g: 37, b: 133 },
    }
}

/// The band that level `v` falls in (for `v < 254`).
pub open spec fn band_of(v: int) -> int {
    if v <= 63 {
        0
    } else if v <= 126 {
        1
    } else if v <= 189 {
        2
    } else {
        3
    }
}

/// The first level of band `k`.
pub open spec fn band_start(k: int) -> int {
    if k == 0 {
        0
    } else if k == 1 {
        64
    } else if k == 2 {
        127
    } else {
        190
    }
}

/// The color `step` sixty-thirds of the way from `a` to `b`, channel by channel.
pub open spec fn blend(step: int, a: Rgb, b: Rgb) -> Rgb {
    Rgb {
        r: lerp(step, a.r as int, b.r as int) as u8,
        g: lerp(step, a.g as int, b.g as int) as u8,
        b: lerp(step, a.b as int, b.b as int) as u8,
    }
}

/// The color of level `v`: inside band `k` it is interpolated from anchor `k`
/// to anchor `k + 1`; from level 254 on it is the last anchor.
pub open spec fn palette_color(v: int) -> Rgb {
    if v >= 254 {
        anchor_spec(4)
    } else {
        let k = band_of(v);
        blend(v - band_start(k), anchor_spec(k), anchor_spec(k + 1))
    }
}

/// Maps a normalized level onto the palette.
pub fn colormap(val: u32) -> (c: Rgb)
    ensures
        c == palette_color(val as int),
{
    if val >= 254 {
        return anchor(4);
    }
    let k: usize = if val <= 63 {
        0
    } else if val <= 126 {
        1
    } else if val <= 189 {
        2
    } else {
        3
    };
    let start: u32 = if k == 0 {
        0
    } else if k == 1 {
        64
    } else if k == 2 {
        127
    } else {
        190
    };
    let step: u32 = val - start;
    let low = anchor(k);
    let high = anchor(k + 1);
    Rgb {
        r: interpolate(step, low.r, high.r),
        g: interpolate(step, low.g, high.g),
        b: interpolate(step, low.b, high.b),
    }
}

/// An iteration count `raw` out of `max` scaled to `0..=255`, rounded to the
/// nearest level (halves round up).
pub open spec fn level_of(raw: int, max: int) -> int {
    (2 * 255 * raw + max) / (2 * max)
}

/// Scales an iteration count to a palette level.
pub fn normalize(raw: u32, max_iterations: u32) -> (v: u32)
    requires
        0 < max_iterations,
        raw <= max_iterations,
    ensures
        v as int == level_of(raw as int, max_iterations as int),
        v <= MAX_LEVEL,
{
    let num: u64 = 510 * raw as u64 + max_iterations as u64;
    let den: u64 = 2 * max_iterations as u64;
    proof {
        let (r, m) = (raw as int, max_iterations as int);
        assert((2 * 255 * r + m) / (2 * m) <= 255) by (nonlinear_arith)
            requires
                0 <= r <= m,
                0 < m,
        ;
    }
    (num / den) as u32
}

/// Largest difference of one channel between two colors.
pub open spec fn channel_gap(a: Rgb, b: Rgb) -> int {
    let dr = if a.r >= b.r { a.r - b.r } else { b.r - a.r };
    let dg = if a.g >= b.g { a.g - b.g } else { b.g - a.g };
    let db = if a.b >= b.b { a.b - b.b } else { b.b - a.b };
    if dr >= dg && dr >= db {
        dr as int
    } else if dg >= db {
        dg as int
    } else {
        db as int
    }
}

proof fn lemma_lerp_ends(low: int, high: int)
    ensures
        lerp(0, low, high) == low,
        lerp(63, low, high) == high,
{
}

proof fn lemma_lerp_step(t: int, low: int, high: int)
    requires
        0 <= t < 63,
        0 <= low <= 255,
        0 <= high <= 255,
        -189 <= high - low <= 189,
    ensures
        -3 <= lerp(t + 1, low, high) - lerp(t, low, high) <= 3,
{
    let d = high - low;
    assert(d * (t + 1) == d * t + d) by (nonlinear_arith);
}

proof fn lemma_blend_step(t: int, a: Rgb, b: Rgb)
    requires
        0 <= t < 63,
        -189 <= b.r - a.r <= 189,
        -189 <= b.g - a.g <= 189,
        -189 <= b.b - a.b <= 189,
    ensures
        channel_gap(blend(t, a, b), blend(t + 1, a, b)) <= PALETTE_STEP,
{
    lemma_lerp_step(t, a.r as int, b.r as int);
    lemma_lerp_step(t, a.g as int, b.g as int);
    lemma_lerp_step(t, a.b as int, b.b as int);
    if b.r >= a.r {
        lemma_lerp_rising(t, a.r as int, b.r as int);
        lemma_lerp_rising(t + 1, a.r as int, b.r as int);
    } else {
        lemma_lerp_falling(t, a.r as int, b.r as int);
        lemma_lerp_falling(t + 1, a.r as int, b.r as int);
    }
    if b.g >= a.g {
        lemma_lerp_rising(t, a.g as int, b.g as int);
        lemma_lerp_rising(t + 1, a.g as int, b.g as int);
    } else {
        lemma_lerp_falling(t, a.g as int, b.g as int);
        lemma_lerp_falling(t + 1, a.g as int, b.g as int);
    }
    if b.b >= a.b {
        lemma_lerp_rising(t, a.b as int, b.b as int);
        lemma_lerp_rising(t + 1, a.b as int, b.b as int);
    } else {
        lemma_lerp_falling(t, a.b as int, b.b as int);
        lemma_lerp_falling(t + 1, a.b as int, b.b as int);
    }
}

proof fn lemma_blend_ends(a: Rgb, b: Rgb)
    ensures
        blend(0, a, b) == a,
        blend(63, a, b) == b,
{
    lemma_lerp_ends(a.r as int, b.r as int);
    lemma_lerp_ends(a.g as int, b.g as int);
    lemma_lerp_ends(a.b as int, b.b as int);
}

proof fn lemma_palette_gap(v: int)
    requires
        0 <= v < MAX_LEVEL,
    ensures
        channel_gap(palette_color(v), palette_color(v + 1)) <= PALETTE_STEP,
{
    if v >= 253 {
        lemma_blend_ends(anchor_spec(3), anchor_spec(4));
    } else if v == 63 {
        lemma_blend_ends(anchor_spec(0), anchor_spec(1));
        lemma_blend_ends(anchor_spec(1), anchor_spec(2));
    } else if v == 126 {
        lemma_blend_ends(anchor_spec(2), anchor_spec(3));
        lemma_blend_ends(anchor_spec(1), anchor_spec(2));
        lemma_blend_step(62, anchor_spec(1), anchor_spec(2));
    } else if v == 189 {
        lemma_blend_ends(anchor_spec(3), anchor_spec(4));
        lemma_blend_ends(anchor_spec(2), anchor_spec(3));
        lemma_blend_step(62, anchor_spec(2), anchor_spec(3));
    } else if v < 63 {
        lemma_blend_step(v, anchor_spec(0), anchor_spec(1));
    } else if v < 126 {
        lemma_blend_step(v - 64, anchor_spec(1), anchor_spec(2));
    } else if v < 189 {
        lemma_blend_step(v - 127, anchor_spec(2), anchor_spec(3));
    } else {
        lemma_blend_step(v - 190, anchor_spec(3), anchor_spec(4));
    }
}

/// The palette starts at the first anchor, ends at the last one, and no
/// channel jumps by more than one interpolation step between neighbouring
/// levels, band boundaries included.
pub proof fn lemma_palette_continuous()
    ensures
        palette_color(0) == anchor_spec(0),
        palette_color(MAX_LEVEL as int) == anchor_spec(4),
        forall|v: int|
            0 <= v < MAX_LEVEL ==> channel_gap(#[trigger] palette_color(v), palette_color(v + 1))
                <= PALETTE_STEP,
{
    lemma_blend_ends(anchor_spec(0), anchor_spec(1));
    assert forall|v: int| 0 <= v < MAX_LEVEL implies channel_gap(
        #[trigger] palette_color(v),
        palette_color(v + 1),
    ) <= PALETTE_STEP by {
        lemma_palette_gap(v);
    }
}

} // verus!
