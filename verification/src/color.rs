//! Colours with 8-bit channels and a fixed-point alpha, and "over" compositing.

use vstd::prelude::*;

verus! {

/// Largest value of a colour channel.
pub const MAX_CHANNEL: u8 = 255;

/// The alpha of a fully opaque colour; an alpha `a` stands for `a / OPAQUE`.
pub const OPAQUE: u32 = 65536;

/// A colour: red, green and blue from 0 to [`MAX_CHANNEL`], and an alpha in
/// parts of [`OPAQUE`].
#[derive(Clone, Copy, Debug, PartialEq, Eq, Structural)]
pub struct Color {
    pub r: u8,
    pub g: u8,
    pub b: u8,
    pub a: u32,
}

/// The weighted sum `(1 - a) * bg + a * fg` of one channel, rounded down.
pub open spec fn blend_spec(a: int, fg: int, bg: int) -> int {
    ((OPAQUE - a) * bg + a * fg) / (OPAQUE as int)
}

/// One channel of `fg` composited over `bg` with alpha `a`: the weighted sum,
/// pinned to the channel range (which only matters for an alpha above
/// [`OPAQUE`]).
pub open spec fn mix_channel(a: int, fg: int, bg: int) -> int {
    let v = blend_spec(a, fg, bg);
    if v < 0 {
        0
    } else if v > 255 {
        255
    } else {
        v
    }
}

/// `fg` composited over `bg`.
pub open spec fn mix_spec(fg: Color, bg: Color) -> Color {
    Color {
        r: mix_channel(fg.a as int, fg.r as int, bg.r as int) as u8,
        g: mix_channel(fg.a as int, fg.g as int, bg.g as int) as u8,
        b: mix_channel(fg.a as int, fg.b as int, bg.b as int) as u8,
        a: OPAQUE,
    }
}

/// `fg` composited `k` times in a row over `bg`.
pub open spec fn mix_times(fg: Color, bg: Color, k: nat) -> Color
    decreases k,
{
    if k == 0 {
        bg
    } else {
        mix_spec(fg, mix_times(fg, bg, (k - 1) as nat))
    }
}

/// Compositing an opaque colour replaces what was there: once it has been
/// applied at least once the result is that colour, and applied no times the
/// background stays as it was.
pub proof fn lemma_opaque_covers(fg: Color, bg: Color, k: nat)
    requires
        fg.a == OPAQUE,
    ensures
        mix_times(fg, bg, k) == if k > 0 {
            fg
        } else {
            bg
        },
    decreases k,
{
    if k > 0 {
        lemma_opaque_covers(fg, bg, (k - 1) as nat);
        let under = mix_times(fg, bg, (k - 1) as nat);
        assert(mix_channel(OPAQUE as int, fg.r as int, under.r as int) == fg.r);
        assert(mix_channel(OPAQUE as int, fg.g as int, under.g as int) == fg.g);
        assert(mix_channel(OPAQUE as int, fg.b as int, under.b as int) == fg.b);
    }
}

/// An opaque colour.
pub fn rgb(r: u8, g: u8, b: u8) -> (c: Color)
    ensures
        c == (Color { r, g, b, a: OPAQUE }),
{
    Color { r, g, b, a: OPAQUE }
}

/// A colour with alpha `a / OPAQUE`.
pub fn rgba(r: u8, g: u8, b: u8, a: u32) -> (c: Color)
    ensures
        c == (Color { r, g, b, a }),
{
    Color { r, g, b, a }
}

/// One channel of a colour with alpha `a` composited over a background.
fn mix_one(a: u32, fg: u8, bg: u8) -> (out: u8)
    ensures
        out == mix_channel(a as int, fg as int, bg as int),
        a <= OPAQUE ==> out == blend_spec(a as int, fg as int, bg as int),
{
    let weight: i64 = 65536 - a as i64;
    assert(-4294967296 < weight <= 65536);
    assert(-1095216660480 <= weight * bg <= 16711680) by (nonlinear_arith)
        requires
            -4294967296 < weight <= 65536,
            0 <= bg <= 255,
    ;
    assert(0 <= a * fg <= 1095216660480) by (nonlinear_arith)
        requires
            0 <= a <= 4294967295,
            0 <= fg <= 255,
    ;
    let sum: i64 = weight * (bg as i64) + (a as i64) * (fg as i64);
    proof {
        if a <= OPAQUE {
            assert(0 <= (OPAQUE - a) * bg + a * fg <= 255 * OPAQUE) by (nonlinear_arith)
                requires
                    0 <= a <= OPAQUE,
                    0 <= fg <= 255,
                    0 <= bg <= 255,
            ;
        }
    }
    if sum < 0 {
        0
    } else {
        let v: i64 = sum / 65536;
        if v > 255 {
            255
        } else {
            v as u8
        }
    }
}

impl Color {
    /// Composites `self` over `bg`: each channel becomes
    /// `(1 - a) * bg + a * self`, rounded down, and the result is opaque.
    pub fn mix(&self, bg: &Color) -> (out: Color)
        ensures
            out == mix_spec(*self, *bg),
            out.a == OPAQUE,
            self.a <= OPAQUE ==> {
                &&& out.r == blend_spec(self.a as int, self.r as int, bg.r as int)
                &&& out.g == blend_spec(self.a as int, self.g as int, bg.g as int)
                &&& out.b == blend_spec(self.a as int, self.b as int, bg.b as int)
            },
    {
        Color {
            r: mix_one(self.a, self.r, bg.r),
            g: mix_one(self.a, self.g, bg.g),
            b: mix_one(self.a, self.b, bg.b),
            a: OPAQUE,
        }
    }
}

} // verus!
