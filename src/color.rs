//! The banded colour mapper. Escape values, band bounds and palette channels
//! are fixed-point numbers with six fractional digits (`1_000_000` is one).
//! Each escaping value falls in the first band `[bounds[i], bounds[i + 1])`
//! that holds it, and takes a colour blended linearly between palette entries
//! `i mod n` and `(i + 1) mod n`; values at or above the iteration cap take the
//! interior colour, and values that fall in no band are black.
use vstd::prelude::*;
use crate::decimal::UNIT;

verus! {

/// An 8-bit colour.
#[derive(Debug, Clone, Copy, PartialEq, Eq, Structural)]
pub struct Rgb8 {
    pub r: u8,
    pub g: u8,
    pub b: u8,
}

/// A palette entry: channels in fixed point, `0` to `1_000_000`.
#[derive(Debug, Clone, Copy, PartialEq, Eq, Structural)]
pub struct Hue {
    pub r: i64,
    pub g: i64,
    pub b: i64,
}

/// Everything that colouring needs besides the field.
pub struct Banding {
    /// The iteration cap: values at or above it are interior.
    pub iter_max: i64,
    /// Band bounds, ascending for sane spacing: band `i` is
    /// `[bounds[i], bounds[i + 1])`.
    pub bounds: Vec<i64>,
    /// The palette, used cyclically.
    pub palette: Vec<Hue>,
    /// The colour of interior points.
    pub interior: Rgb8,
}

pub open spec fn black() -> Rgb8 {
    Rgb8 { r: 0, g: 0, b: 0 }
}

pub open spec fn in_band(bounds: Seq<i64>, i: int, h: int) -> bool {
    0 <= i && i + 1 < bounds.len() && bounds[i] <= h < bounds[i + 1]
}

/// The first band at or after `i` that holds `h`.
pub open spec fn band_from(bounds: Seq<i64>, h: int, i: int) -> Option<int>
    decreases bounds.len() - i,
{
    if i < 0 || i + 1 >= bounds.len() {
        None
    } else if in_band(bounds, i, h) {
        Some(i)
    } else {
        band_from(bounds, h, i + 1)
    }
}

/// The first band that holds `h`.
pub open spec fn first_band(bounds: Seq<i64>, h: int) -> Option<int> {
    band_from(bounds, h, 0)
}

pub open spec fn clamp_unit(c: int) -> int {
    if c < 0 {
        0
    } else if c > 1_000_000 {
        1_000_000
    } else {
        c
    }
}

/// `round(255 * (c0 + t * (c1 - c0)))` for the exact fraction `t = num / den`,
/// with the channels clamped to `[0, 1]` first and halves rounded up. A band
/// of no width (`den <= 0`) blends at `t = 0`.
pub open spec fn blend_byte(c0: int, c1: int, num: int, den: int) -> int {
    let a = clamp_unit(c0);
    let b = clamp_unit(c1);
    let n = if den > 0 {
        num
    } else {
        0
    };
    let d = if den > 0 {
        den
    } else {
        1
    };
    (510 * (a * d + n * (b - a)) + 1_000_000 * d) / (2_000_000 * d)
}

/// `round(255 * c)` for a fixed-point channel, clamped to `[0, 1]` first.
pub open spec fn channel_byte(c: int) -> int {
    (510 * clamp_unit(c) + 1_000_000) / 2_000_000
}

/// The colour `num / den` of the way from `h0` to `h1`.
pub open spec fn blend_hues(h0: Hue, h1: Hue, num: int, den: int) -> Rgb8 {
    Rgb8 {
        r: blend_byte(h0.r as int, h1.r as int, num, den) as u8,
        g: blend_byte(h0.g as int, h1.g as int, num, den) as u8,
        b: blend_byte(h0.b as int, h1.b as int, num, den) as u8,
    }
}

/// The colour of one escape value: the interior colour at or above the cap,
/// else the blend of its band's two palette entries, else black.
pub open spec fn pixel_color(h: i64, iter_max: i64, bounds: Seq<i64>, palette: Seq<Hue>, interior: Rgb8) -> Rgb8
    recommends
        palette.len() > 0,
{
    if h >= iter_max {
        interior
    } else {
        match first_band(bounds, h as int) {
            Some(i) => {
                let n = palette.len() as int;
                blend_hues(
                    palette[i % n],
                    palette[(i + 1) % n],
                    h - bounds[i],
                    bounds[i + 1] - bounds[i],
                )
            },
            None => black(),
        }
    }
}

impl Banding {
    pub open spec fn wf(&self) -> bool {
        self.palette@.len() > 0
    }

    pub open spec fn color_of(&self, h: i64) -> Rgb8 {
        pixel_color(h, self.iter_max, self.bounds@, self.palette@, self.interior)
    }
}

/// The first band that holds `h`, scanning upwards.
pub fn band_index(bounds: &Vec<i64>, h: i64) -> (r: Option<usize>)
    ensures
        match r {
            Some(i) => first_band(bounds@, h as int) == Some(i as int) && in_band(
                bounds@,
                i as int,
                h as int,
            ) && forall|j: int| 0 <= j < i ==> !#[trigger] in_band(bounds@, j, h as int),
            None => first_band(bounds@, h as int) is None && forall|j: int|
                !#[trigger] in_band(bounds@, j, h as int),
        },
{
    if bounds.len() == 0 {
        return None;
    }
    let mut i: usize = 0;
    while i < bounds.len() - 1
        invariant
            i < bounds@.len(),
            first_band(bounds@, h as int) == band_from(bounds@, h as int, i as int),
            forall|j: int| 0 <= j < i ==> !#[trigger] in_band(bounds@, j, h as int),
        decreases bounds@.len() - i,
    {
        if bounds[i] <= h && h < bounds[i + 1] {
            assert(in_band(bounds@, i as int, h as int));
            assert(band_from(bounds@, h as int, i as int) == Some(i as int));
            return Some(i);
        }
        i = i + 1;
    }
    None
}

/// The two palette entries that band `band` blends between: `band mod n` and
/// `(band + 1) mod n`.
pub fn palette_pair(band: usize, n: usize) -> (r: (usize, usize))
    requires
        n > 0,
    ensures
        r.0 == band % n,
        r.1 == (band as int + 1) % (n as int),
        r.0 < n && r.1 < n,
{
    let first = band % n;
    let second = (first + 1) % n;
    proof {
        vstd::arithmetic::div_mod::lemma_add_mod_noop(band as int, 1, n as int);
        vstd::arithmetic::div_mod::lemma_mod_twice(band as int, n as int);
        if n > 1 {
            vstd::arithmetic::div_mod::lemma_add_mod_noop(band as int % n as int, 1, n as int);
        }
    }
    (first, second)
}

fn clamp_channel(c: i64) -> (r: i64)
    ensures
        r == clamp_unit(c as int),
{
    if c < 0 {
        0
    } else if c > UNIT {
        UNIT
    } else {
        c
    }
}

/// `round(255 * (a + (num / den) (b - a)))` for clamped channels `a`, `b`,
/// computed exactly in `i128`.
fn blend_channel(c0: i64, c1: i64, num: i128, den: i128) -> (r: u8)
    requires
        0 <= num < den <= 0x1_0000_0000_0000_0000,
    ensures
        r == blend_byte(c0 as int, c1 as int, num as int, den as int),
        0 <= blend_byte(c0 as int, c1 as int, num as int, den as int) <= 255,
{
    let a = clamp_channel(c0) as i128;
    let b = clamp_channel(c1) as i128;
    assert(-1_000_000 * den <= num * (b - a) <= 1_000_000 * den) by (nonlinear_arith)
        requires
            0 <= a <= 1_000_000,
            0 <= b <= 1_000_000,
            0 <= num < den,
    ;
    assert(0 <= a * den + num * (b - a) <= 1_000_000 * den) by (nonlinear_arith)
        requires
            0 <= a <= 1_000_000,
            0 <= b <= 1_000_000,
            0 <= num < den,
    ;
    let x = a * den + num * (b - a);
    let top = 510 * x + 1_000_000 * den;
    let bottom = 2_000_000 * den;
    proof {
        assert(top < bottom * 256) by (nonlinear_arith)
            requires
                top == 510 * x + 1_000_000 * den,
                bottom == 2_000_000 * den,
                0 <= x <= 1_000_000 * den,
                den > 0,
        ;
        vstd::arithmetic::div_mod::lemma_div_pos_is_pos(top as int, bottom as int);
        vstd::arithmetic::div_mod::lemma_multiply_divide_lt(top as int, bottom as int, 256);
    }
    (top / bottom) as u8
}

/// The colour `num / den` of the way from `h0` to `h1`.
fn blend_hue_pair(h0: Hue, h1: Hue, num: i128, den: i128) -> (r: Rgb8)
    requires
        0 <= num < den <= 0x1_0000_0000_0000_0000,
    ensures
        r == blend_hues(h0, h1, num as int, den as int),
{
    Rgb8 {
        r: blend_channel(h0.r, h1.r, num, den),
        g: blend_channel(h0.g, h1.g, num, den),
        b: blend_channel(h0.b, h1.b, num, den),
    }
}

/// `round(255 * c)` for a fixed-point channel, clamped to `[0, 1]` first.
pub fn channel_to_byte(c: i64) -> (r: u8)
    ensures
        r == channel_byte(c as int),
{
    let a = clamp_channel(c);
    ((510 * a + 1_000_000) / 2_000_000) as u8
}

impl Banding {
    /// The colour of one escape value.
    pub fn color_of_value(&self, h: i64) -> (r: Rgb8)
        requires
            self.wf(),
        ensures
            r == self.color_of(h),
    {
        if h >= self.iter_max {
            return self.interior;
        }
        match band_index(&self.bounds, h) {
            Some(i) => {
                assert(in_band(self.bounds@, i as int, h as int));
                let (k0, k1) = palette_pair(i, self.palette.len());
                let nb = self.bounds.len();
                assert(i + 1 < nb);
                let j = i + 1;
                let lo = self.bounds[i] as i128;
                let hi = self.bounds[j] as i128;
                blend_hue_pair(self.palette[k0], self.palette[k1], h as i128 - lo, hi - lo)
            },
            None => Rgb8 { r: 0, g: 0, b: 0 },
        }
    }
}

/// Colours a field with the banded palette: the result has the field's shape,
/// and each pixel is the colour of the value at the same place.
pub fn color_grid(field: &Vec<Vec<i64>>, banding: &Banding) -> (r: Vec<Vec<Rgb8>>)
    requires
        banding.wf(),
    ensures
        r@.len() == field@.len(),
        forall|u: int| 0 <= u < field@.len() ==> #[trigger] r@[u]@.len() == field@[u]@.len(),
        forall|u: int, v: int|
            0 <= u < field@.len() && 0 <= v < field@[u]@.len() ==> #[trigger] r@[u]@[v]
                == banding.color_of(field@[u]@[v]),
{
    let mut out: Vec<Vec<Rgb8>> = Vec::new();
    let mut u: usize = 0;
    while u < field.len()
        invariant
            banding.wf(),
            u <= field@.len(),
            out@.len() == u,
            forall|a: int| 0 <= a < u ==> #[trigger] out@[a]@.len() == field@[a]@.len(),
            forall|a: int, b: int|
                0 <= a < u && 0 <= b < field@[a]@.len() ==> #[trigger] out@[a]@[b]
                    == banding.color_of(field@[a]@[b]),
        decreases field@.len() - u,
    {
        let row = &field[u];
        let mut line: Vec<Rgb8> = Vec::new();
        let mut v: usize = 0;
        while v < row.len()
            invariant
                banding.wf(),
                v <= row@.len(),
                line@.len() == v,
                forall|b: int| 0 <= b < v ==> #[trigger] line@[b] == banding.color_of(row@[b]),
            decreases row@.len() - v,
        {
            line.push(banding.color_of_value(row[v]));
            v = v + 1;
        }
        out.push(line);
        u = u + 1;
    }
    out
}

/// The colour of one value in the simple mode: the palette entry at the
/// value's whole part (negatives count as zero), taken cyclically.
pub open spec fn cyclic_color(h: i64, palette: Seq<Hue>) -> Rgb8
    recommends
        palette.len() > 0,
{
    let k = if h < 0 {
        0
    } else {
        h / 1_000_000
    };
    let p = palette[k % (palette.len() as int)];
    Rgb8 {
        r: channel_byte(p.r as int) as u8,
        g: channel_byte(p.g as int) as u8,
        b: channel_byte(p.b as int) as u8,
    }
}

/// Colours a field in the simple mode, by the whole part of each value taken
/// modulo the palette's length.
pub fn color_grid_cyclic(field: &Vec<Vec<i64>>, palette: &Vec<Hue>) -> (r: Vec<Vec<Rgb8>>)
    requires
        palette@.len() > 0,
    ensures
        r@.len() == field@.len(),
        forall|u: int| 0 <= u < field@.len() ==> #[trigger] r@[u]@.len() == field@[u]@.len(),
        forall|u: int, v: int|
            0 <= u < field@.len() && 0 <= v < field@[u]@.len() ==> #[trigger] r@[u]@[v]
                == cyclic_color(field@[u]@[v], palette@),
{
    let n = palette.len();
    let mut out: Vec<Vec<Rgb8>> = Vec::new();
    let mut u: usize = 0;
    while u < field.len()
        invariant
            n == palette@.len() > 0,
            u <= field@.len(),
            out@.len() == u,
            forall|a: int| 0 <= a < u ==> #[trigger] out@[a]@.len() == field@[a]@.len(),
            forall|a: int, b: int|
                0 <= a < u && 0 <= b < field@[a]@.len() ==> #[trigger] out@[a]@[b]
                    == cyclic_color(field@[a]@[b], palette@),
        decreases field@.len() - u,
    {
        let row = &field[u];
        let mut line: Vec<Rgb8> = Vec::new();
        let mut v: usize = 0;
        while v < row.len()
            invariant
                n == palette@.len() > 0,
                v <= row@.len(),
                line@.len() == v,
                forall|b: int| 0 <= b < v ==> #[trigger] line@[b] == cyclic_color(row@[b], palette@),
            decreases row@.len() - v,
        {
            let h = row[v];
            let k: u64 = if h < 0 {
                0
            } else {
                (h / UNIT) as u64
            };
            let p = palette[(k % n as u64) as usize];
            line.push(Rgb8 { r: channel_to_byte(p.r), g: channel_to_byte(p.g), b: channel_to_byte(p.b) });
            v = v + 1;
        }
        out.push(line);
        u = u + 1;
    }
    out
}

proof fn lemma_band_from_covers(bounds: Seq<i64>, h: int, i: int)
    requires
        0 <= i < bounds.len() - 1,
        forall|a: int, b: int| 0 <= a <= b < bounds.len() ==> bounds[a] <= bounds[b],
        bounds[i] <= h < bounds[bounds.len() - 1],
    ensures
        band_from(bounds, h, i) is Some,
    decreases bounds.len() - i,
{
    if h >= bounds[i + 1] {
        lemma_band_from_covers(bounds, h, i + 1);
    }
}

/// With non-decreasing bounds, every value from the first bound up to, but
/// not including, the last one lies in some band.
pub proof fn lemma_sorted_bounds_cover(bounds: Seq<i64>, h: int)
    requires
        bounds.len() >= 2,
        forall|a: int, b: int| 0 <= a <= b < bounds.len() ==> bounds[a] <= bounds[b],
        bounds[0] <= h < bounds[bounds.len() - 1],
    ensures
        first_band(bounds, h) is Some,
{
    lemma_band_from_covers(bounds, h, 0);
}

/// A field whose values all reach the iteration cap colours to the interior
/// colour everywhere.
pub proof fn lemma_interior_field(field: Seq<Seq<i64>>, banding: Banding)
    requires
        forall|u: int, v: int|
            0 <= u < field.len() && 0 <= v < field[u].len() ==> #[trigger] field[u][v]
                >= banding.iter_max,
    ensures
        forall|u: int, v: int|
            0 <= u < field.len() && 0 <= v < field[u].len() ==> #[trigger] banding.color_of(
                field[u][v],
            ) == banding.interior,
{
}

} // verus!
