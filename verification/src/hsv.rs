//! Hue, saturation and value as exact fractions, and the conversions between
//! them and 8-bit colours.
//!
//! A hue is a fraction of degrees in `[0, 360)`, saturation and value are
//! fractions in `[0, 1]`. From an 8-bit colour with largest channel `max` and
//! smallest channel `min` the value is `max / 255`, the saturation
//! `(max - min) / max`, and the hue a multiple of `60 / (max - min)` degrees, so
//! nothing is lost on the way there, and the way back recovers the colour.

use crate::color::Rgb;
use vstd::arithmetic::div_mod::lemma_fundamental_div_mod;
use vstd::arithmetic::div_mod::lemma_fundamental_div_mod_converse;
use vstd::prelude::*;

verus! {

/// The fraction `num / den`.
#[derive(Clone, Copy, Debug, PartialEq, Eq)]
pub struct Ratio {
    pub num: u32,
    pub den: u32,
}

/// The largest denominator that a hue can have: 360 times it fits in 32 bits.
pub const MAX_HUE_DEN: u32 = 11_930_464;

/// A colour by hue, saturation and value.
#[derive(Clone, Copy, Debug, PartialEq, Eq)]
pub struct HSV {
    /// The hue in degrees, in `[0, 360)`.
    pub h: Ratio,
    /// The saturation, in `[0, 1]`.
    pub s: Ratio,
    /// The value, in `[0, 1]`.
    pub v: Ratio,
}

/// The largest of three numbers.
pub open spec fn max3(a: int, b: int, c: int) -> int {
    if a >= b && a >= c {
        a
    } else if b >= c {
        b
    } else {
        c
    }
}

/// The smallest of three numbers.
pub open spec fn min3(a: int, b: int, c: int) -> int {
    if a <= b && a <= c {
        a
    } else if b <= c {
        b
    } else {
        c
    }
}

/// `n / d` rounded to the nearest integer, a half rounded up.
pub open spec fn round_div(n: int, d: int) -> int {
    (2 * n + d) / (2 * d)
}

/// The hue of `c` in steps of `60 / (max - min)` degrees, for a colour that
/// is not grey: `(g - b) mod 6(max - min)` where red is largest, else
/// `(b - r) + 2(max - min)` where green is, else `(r - g) + 4(max - min)`.
pub open spec fn hue_steps(c: Rgb<u8>) -> int {
    let max = max3(c.r(), c.g(), c.b());
    let delta = max - min3(c.r(), c.g(), c.b());
    if c.r() == max {
        (c.g() - c.b()) % (6 * delta)
    } else if c.g() == max {
        (c.b() - c.r()) + 2 * delta
    } else {
        (c.r() - c.g()) + 4 * delta
    }
}

impl HSV {
    /// The hue is below 360 degrees, saturation and value are at most 1, and
    /// the denominators are positive, that of the hue at most `MAX_HUE_DEN`.
    pub open spec fn valid(self) -> bool {
        &&& 0 < self.h.den <= MAX_HUE_DEN
        &&& self.h.num < 360 * self.h.den
        &&& 0 < self.s.den
        &&& self.s.num <= self.s.den
        &&& 0 < self.v.den
        &&& self.v.num <= self.v.den
    }

    /// The hue, saturation and value of an 8-bit colour.
    ///
    /// With the channels taken as fractions of 255: the value is the largest
    /// channel, the saturation is 0 for black and else `(max - min) / max`,
    /// the hue is 0 for a grey and else `60 * hue_steps / (max - min)`.
    pub open spec fn spec_from_rgb(c: Rgb<u8>) -> HSV {
        let max = max3(c.r(), c.g(), c.b());
        let delta = max - min3(c.r(), c.g(), c.b());
        HSV {
            h: if delta == 0 {
                Ratio { num: 0, den: 1 }
            } else {
                Ratio { num: (60 * hue_steps(c)) as u32, den: delta as u32 }
            },
            s: if max == 0 {
                Ratio { num: 0, den: 1 }
            } else {
                Ratio { num: delta as u32, den: max as u32 }
            },
            v: Ratio { num: max as u32, den: 255 },
        }
    }

    /// The width of one of the six hue sectors, in the unit of `h.num`.
    pub open spec fn sector_len(self) -> int {
        60 * self.h.den
    }

    /// The sector that the hue lies in, 0 to 5.
    pub open spec fn sector(self) -> int {
        self.h.num as int / self.sector_len()
    }

    /// `1 - |(H / 60 mod 2) - 1|` as a multiple of `1 / sector_len()`.
    pub open spec fn ramp(self) -> int {
        let w = self.h.num as int % (2 * self.sector_len());
        if w <= self.sector_len() {
            w
        } else {
            2 * self.sector_len() - w
        }
    }

    /// The denominator that chroma, second component and offset share.
    pub open spec fn scale(self) -> int {
        self.v.den * self.s.den * self.sector_len()
    }

    /// The chroma `C = V * S`, as a multiple of `1 / scale()`.
    pub open spec fn chroma(self) -> int {
        self.v.num * self.s.num * self.sector_len()
    }

    /// The second largest component `X = C * (1 - |(H / 60 mod 2) - 1|)`, as a
    /// multiple of `1 / scale()`.
    pub open spec fn second(self) -> int {
        self.v.num * self.s.num * self.ramp()
    }

    /// The offset `m = V - C`, as a multiple of `1 / scale()`.
    pub open spec fn offset(self) -> int {
        self.v.num * self.s.den * self.sector_len() - self.chroma()
    }

    /// Red, green and blue before the offset is added, by the sector of the
    /// hue, as multiples of `1 / scale()`.
    pub open spec fn primed(self) -> (int, int, int) {
        let c = self.chroma();
        let x = self.second();
        let sector = self.sector();
        if sector == 0 {
            (c, x, 0)
        } else if sector == 1 {
            (x, c, 0)
        } else if sector == 2 {
            (0, c, x)
        } else if sector == 3 {
            (0, x, c)
        } else if sector == 4 {
            (x, 0, c)
        } else {
            (c, 0, x)
        }
    }

    /// The 8-bit colour of a hue, saturation and value: each primed component
    /// plus the offset, times 255, rounded to the nearest integer. With
    /// saturation 0 chroma and second component vanish, and all three channels
    /// are the value times 255.
    pub open spec fn spec_to_rgb(self) -> Rgb<u8> {
        let (r, g, b) = self.primed();
        let m = self.offset();
        let d = self.scale();
        Rgb(
            [
                round_div(255 * (r + m), d) as u8,
                round_div(255 * (g + m), d) as u8,
                round_div(255 * (b + m), d) as u8,
            ],
        )
    }

    /// The colour with the hue turned by `degrees`, saturation and value kept.
    pub open spec fn spec_rotated(self, degrees: int) -> HSV {
        HSV {
            h: Ratio {
                num: ((self.h.num + degrees * self.h.den) % (360 * self.h.den)) as u32,
                den: self.h.den,
            },
            s: self.s,
            v: self.v,
        }
    }

    /// Whether `self` is a hue below 360 degrees with a saturation and a value
    /// of at most 1.
    pub fn is_valid(&self) -> (ok: bool)
        ensures
            ok == self.valid(),
    {
        0 < self.h.den && self.h.den <= MAX_HUE_DEN && (self.h.num as u64) < 360 * (
        self.h.den as u64) && 0 < self.s.den && self.s.num <= self.s.den && 0 < self.v.den
            && self.v.num <= self.v.den
    }

    /// The colour of the given hue, saturation and value, if they are in range.
    pub fn new(h: Ratio, s: Ratio, v: Ratio) -> (hsv: Option<HSV>)
        ensures
            hsv == if (HSV { h, s, v }).valid() {
                Some(HSV { h, s, v })
            } else {
                None
            },
    {
        let hsv = HSV { h, s, v };
        if hsv.is_valid() {
            Some(hsv)
        } else {
            None
        }
    }

    /// The hue, saturation and value of an 8-bit colour.
    pub fn from_rgb_u(c: Rgb<u8>) -> (hsv: HSV)
        ensures
            hsv == Self::spec_from_rgb(c),
            hsv.valid(),
    {
        let r = c.0[0];
        let g = c.0[1];
        let b = c.0[2];
        let max = if r >= g && r >= b {
            r
        } else if g >= b {
            g
        } else {
            b
        };
        let min = if r <= g && r <= b {
            r
        } else if g <= b {
            g
        } else {
            b
        };
        let delta: u32 = (max - min) as u32;
        let h = if delta == 0 {
            Ratio { num: 0, den: 1 }
        } else {
            let steps: u32 = if r == max {
                if g >= b {
                    (g - b) as u32
                } else {
                    6 * delta - (b - g) as u32
                }
            } else if g == max {
                (b as u32 + 2 * delta) - r as u32
            } else {
                (r as u32 + 4 * delta) - g as u32
            };
            proof {
                lemma_hue_steps(c);
            }
            Ratio { num: 60 * steps, den: delta }
        };
        let s = if max == 0 {
            Ratio { num: 0, den: 1 }
        } else {
            Ratio { num: delta, den: max as u32 }
        };
        HSV { h, s, v: Ratio { num: max as u32, den: 255 } }
    }

    /// The 8-bit colour of the given hue, saturation and value.
    pub fn to_rgb(h: Ratio, s: Ratio, v: Ratio) -> (c: Rgb<u8>)
        requires
            (HSV { h, s, v }).valid(),
        ensures
            c == (HSV { h, s, v }).spec_to_rgb(),
    {
        let ghost hsv = HSV { h, s, v };
        let len: u64 = 60 * (h.den as u64);
        let sector: u64 = (h.num as u64) / len;
        let w: u64 = (h.num as u64) % (2 * len);
        let ramp: u64 = if w <= len {
            w
        } else {
            2 * len - w
        };
        proof {
            lemma_fundamental_div_mod(h.num as int, len as int);
            if sector >= 6 {
                assert(len * sector >= len * 6) by (nonlinear_arith)
                    requires
                        sector >= 6,
                        len > 0,
                ;
            }
            assert(sector <= 5);
            lemma_products(v.num as int, s.num as int, s.den as int, v.den as int, ramp as int,
                len as int);
        }
        let both: u64 = (v.num as u64) * (s.num as u64);
        let top: u64 = (v.num as u64) * (s.den as u64);
        let dens: u64 = (v.den as u64) * (s.den as u64);
        let chroma: u128 = (both as u128) * (len as u128);
        let second: u128 = (both as u128) * (ramp as u128);
        let offset: u128 = (top as u128) * (len as u128) - chroma;
        let scale: u128 = (dens as u128) * (len as u128);
        assert(chroma == hsv.chroma());
        assert(second == hsv.second());
        assert(offset == hsv.offset());
        assert(scale == hsv.scale());
        assert(sector == hsv.sector());
        let (r, g, b) = if sector == 0 {
            (chroma, second, 0u128)
        } else if sector == 1 {
            (second, chroma, 0u128)
        } else if sector == 2 {
            (0u128, chroma, second)
        } else if sector == 3 {
            (0u128, second, chroma)
        } else if sector == 4 {
            (second, 0u128, chroma)
        } else {
            (chroma, 0u128, second)
        };
        assert((r as int, g as int, b as int) == hsv.primed());
        Rgb(
            [
                round_channel(r + offset, scale),
                round_channel(g + offset, scale),
                round_channel(b + offset, scale),
            ],
        )
    }

    /// The 8-bit colour of `hsv`.
    pub fn hsv_to_rgb(hsv: HSV) -> (c: Rgb<u8>)
        requires
            hsv.valid(),
        ensures
            c == hsv.spec_to_rgb(),
    {
        Self::to_rgb(hsv.h, hsv.s, hsv.v)
    }

    /// The colour with the hue turned by `degrees`, saturation and value kept.
    pub fn rotated(&self, degrees: u32) -> (out: HSV)
        requires
            self.valid(),
        ensures
            out == self.spec_rotated(degrees as int),
            out.valid(),
    {
        let den: u64 = self.h.den as u64;
        let turn: u64 = (degrees % 360) as u64;
        let full: u64 = 360 * den;
        assert(turn * den <= 359 * den) by (nonlinear_arith)
            requires
                turn <= 359,
                0 <= den,
        ;
        let sum: u64 = self.h.num as u64 + turn * den;
        let num: u64 = if sum >= full {
            sum - full
        } else {
            sum
        };
        proof {
            let turns = degrees as int / 360;
            let extra: int = if sum >= full {
                1
            } else {
                0
            };
            assert(self.h.num + degrees * den == (turns + extra) * (360 * den) + num)
                by (nonlinear_arith)
                requires
                    degrees == 360 * turns + turn,
                    num == self.h.num + turn * den - extra * (360 * den),
            ;
            lemma_fundamental_div_mod_converse(
                self.h.num + degrees * den,
                360 * den,
                turns + extra,
                num as int,
            );
        }
        HSV { h: Ratio { num: num as u32, den: self.h.den }, s: self.s, v: self.v }
    }

    /// The hue, saturation and value of an 8-bit colour are in range.
    pub proof fn lemma_from_rgb_valid(c: Rgb<u8>)
        ensures
            Self::spec_from_rgb(c).valid(),
    {
        let max = max3(c.r(), c.g(), c.b());
        let delta = max - min3(c.r(), c.g(), c.b());
        if delta != 0 {
            lemma_hue_steps(c);
        }
    }

    /// Going from an 8-bit colour to hue, saturation and value and back gives
    /// the colour that one started from.
    pub proof fn lemma_round_trip(c: Rgb<u8>)
        ensures
            Self::spec_from_rgb(c).valid(),
            Self::spec_from_rgb(c).spec_to_rgb() == c,
    {
        Self::lemma_from_rgb_valid(c);
        let hsv = Self::spec_from_rgb(c);
        let out = hsv.spec_to_rgb();
        let max = max3(c.r(), c.g(), c.b());
        let delta = max - min3(c.r(), c.g(), c.b());
        if delta == 0 {
            lemma_grey_channels(hsv, max);
        } else {
            lemma_hue_steps(c);
            let k = hue_steps(c);
            if k < delta {
                lemma_sector_channels(hsv, max, delta, k, 0);
            } else if k < 2 * delta {
                lemma_sector_channels(hsv, max, delta, k, 1);
            } else if k < 3 * delta {
                lemma_sector_channels(hsv, max, delta, k, 2);
            } else if k < 4 * delta {
                lemma_sector_channels(hsv, max, delta, k, 3);
            } else if k < 5 * delta {
                lemma_sector_channels(hsv, max, delta, k, 4);
            } else {
                lemma_sector_channels(hsv, max, delta, k, 5);
            }
        }
        c.lemma_channels_decide(out);
    }
}

/// `num / den` rounded to the nearest of 0 to 255, for `num` at most `den`.
fn round_channel(num: u128, den: u128) -> (c: u8)
    requires
        0 < den <= 0x40_0000_0000_0000_0000_0000_0000,
        num <= den,
    ensures
        c == round_div(255 * num, den as int),
{
    let q: u128 = (510 * num + den) / (2 * den);
    proof {
        lemma_fundamental_div_mod(510 * num + den, 2 * den);
        assert(q <= 255) by (nonlinear_arith)
            requires
                510 * num + den == (2 * den) * q + (510 * num + den) % (2 * den),
                0 <= (510 * num + den) % (2 * den),
                num <= den,
                0 < den,
        ;
    }
    q as u8
}

/// The products that `to_rgb` forms fit the types that hold them.
proof fn lemma_products(vn: int, sn: int, sd: int, vd: int, ramp: int, len: int)
    requires
        0 <= vn <= vd <= 0xffff_ffff,
        0 <= sn <= sd <= 0xffff_ffff,
        0 <= ramp <= len <= 0x4000_0000,
        0 < vd,
        0 < sd,
        0 < len,
    ensures
        0 <= vn * sn <= vn * sd <= vd * sd <= 0xffff_fffe_0000_0001,
        0 <= vn * sn * ramp <= vn * sn * len <= vn * sd * len <= vd * sd * len
            <= 0x4000_0000_0000_0000_0000_0000,
        0 < vd * sd * len,
{
    assert(0 < vd * sd * len) by (nonlinear_arith)
        requires
            0 < vd,
            0 < sd,
            0 < len,
    ;
    assert(0 <= vn * sn <= vn * sd <= vd * sd <= 0xffff_fffe_0000_0001) by (nonlinear_arith)
        requires
            0 <= vn <= vd <= 0xffff_ffff,
            0 <= sn <= sd <= 0xffff_ffff,
    ;
    let a = vn * sn;
    let b = vn * sd;
    let c = vd * sd;
    assert(0 <= a * ramp <= a * len <= b * len <= c * len <= 0x4000_0000_0000_0000_0000_0000)
        by (nonlinear_arith)
        requires
            0 <= a <= b <= c <= 0xffff_fffe_0000_0001,
            0 <= ramp <= len <= 0x4000_0000,
    ;
}

/// The hue steps of a colour that is not grey, case by case, and their range.
proof fn lemma_hue_steps(c: Rgb<u8>)
    requires
        max3(c.r(), c.g(), c.b()) != min3(c.r(), c.g(), c.b()),
    ensures
        0 <= hue_steps(c) < 6 * (max3(c.r(), c.g(), c.b()) - min3(c.r(), c.g(), c.b())),
        c.r() == max3(c.r(), c.g(), c.b()) ==> hue_steps(c) == if c.g() >= c.b() {
            c.g() - c.b()
        } else {
            6 * (max3(c.r(), c.g(), c.b()) - min3(c.r(), c.g(), c.b())) - (c.b() - c.g())
        },
{
    let max = max3(c.r(), c.g(), c.b());
    let delta = max - min3(c.r(), c.g(), c.b());
    if c.r() == max {
        if c.g() >= c.b() {
            lemma_fundamental_div_mod_converse(c.g() - c.b(), 6 * delta, 0, c.g() - c.b());
        } else {
            lemma_fundamental_div_mod_converse(
                c.g() - c.b(),
                6 * delta,
                -1,
                6 * delta - (c.b() - c.g()),
            );
        }
    }
}

/// Where the hue is `60 * k / delta` degrees and `k` lies in the `q`-th run of
/// `delta` steps, the sector is `q`, and the ramp rises through the even
/// sectors and falls through the odd ones. A hue at the very end of a sector
/// may be counted to it.
proof fn lemma_sector_ramp(k: int, delta: int, q: int)
    requires
        0 < delta <= 255,
        0 <= q <= 5,
        q * delta <= k < (q + 1) * delta,
    ensures
        (60 * k) / (60 * delta) == q,
        (60 * k) % (2 * (60 * delta)) == if q % 2 == 0 {
            60 * (k - q * delta)
        } else {
            60 * delta + 60 * (k - q * delta)
        },
{
    let len = 60 * delta;
    assert(60 * k == q * len + 60 * (k - q * delta) && 0 <= k - q * delta < delta)
        by (nonlinear_arith)
        requires
            len == 60 * delta,
            q * delta <= k < (q + 1) * delta,
    ;
    lemma_fundamental_div_mod_converse(60 * k, len, q, 60 * (k - q * delta));
    let half = q / 2;
    if q % 2 == 0 {
        assert(60 * k == half * (2 * len) + 60 * (k - q * delta)) by (nonlinear_arith)
            requires
                len == 60 * delta,
                q == 2 * half,
        ;
        lemma_fundamental_div_mod_converse(60 * k, 2 * len, half, 60 * (k - q * delta));
    } else {
        assert(60 * k == half * (2 * len) + (len + 60 * (k - q * delta))) by (nonlinear_arith)
            requires
                len == 60 * delta,
                q == 2 * half + 1,
        ;
        lemma_fundamental_div_mod_converse(
            60 * k,
            2 * len,
            half,
            len + 60 * (k - q * delta),
        );
    }
}

/// A grey comes back as it was: all three channels are the value times 255.
proof fn lemma_grey_channels(hsv: HSV, max: int)
    requires
        0 <= max <= 255,
        hsv.h == (Ratio { num: 0, den: 1 }),
        hsv.s.num == 0,
        hsv.s.den > 0,
        hsv.v == (Ratio { num: max as u32, den: 255 }),
    ensures
        hsv.spec_to_rgb() == Rgb([max as u8, max as u8, max as u8]),
{
    lemma_fundamental_div_mod_converse(0, 60, 0, 0);
    lemma_fundamental_div_mod_converse(0, 120, 0, 0);
    let unit = hsv.s.den as int;
    assert(hsv.chroma() == 0 && hsv.second() == 0) by (nonlinear_arith)
        requires
            hsv.chroma() == max * 0 * 60,
            hsv.second() == max * 0 * 0,
    ;
    lemma_channel(max, unit, 60, 0, 0, hsv.offset(), hsv.scale(), 0);
    assert(hsv.spec_to_rgb().0 =~= [max as u8, max as u8, max as u8]);
}

/// Where the hue is `60 * k / delta` degrees and `k` lies in the `q`-th run of
/// `delta` steps: the sector is `q`, the largest component comes back as
/// `max`, the smallest as `max - delta`, and the second one climbs from the
/// smallest to the largest through the even sectors and descends through the
/// odd ones.
proof fn lemma_sector_channels(hsv: HSV, max: int, delta: int, k: int, q: int)
    requires
        0 < delta <= max <= 255,
        0 <= q <= 5,
        q * delta <= k < (q + 1) * delta,
        hsv.h == (Ratio { num: (60 * k) as u32, den: delta as u32 }),
        hsv.s == (Ratio { num: delta as u32, den: max as u32 }),
        hsv.v == (Ratio { num: max as u32, den: 255 }),
    ensures
        hsv.sector() == q,
        round_div(255 * (hsv.chroma() + hsv.offset()), hsv.scale()) == max,
        round_div(255 * (0 + hsv.offset()), hsv.scale()) == max - delta,
        round_div(255 * (hsv.second() + hsv.offset()), hsv.scale()) == if q % 2 == 0 {
            max - delta + (k - q * delta)
        } else {
            max - (k - q * delta)
        },
{
    let len = 60 * delta;
    let rise = k - q * delta;
    assert(0 <= rise < delta && 0 <= k < 1530) by (nonlinear_arith)
        requires
            rise == k - q * delta,
            q * delta <= k < (q + 1) * delta,
            0 <= q <= 5,
            0 < delta <= 255,
    ;
    lemma_sector_ramp(k, delta, q);
    let ramp = if q % 2 == 0 {
        60 * rise
    } else {
        60 * (delta - rise)
    };
    assert(hsv.ramp() == ramp);
    let t = if q % 2 == 0 {
        rise
    } else {
        delta - rise
    };
    assert(hsv.chroma() == max * len * delta && hsv.second() == max * len * t)
        by (nonlinear_arith)
        requires
            hsv.chroma() == max * delta * len,
            hsv.second() == max * delta * (60 * t),
            len == 60 * delta,
    ;
    lemma_channel(max, max, len, delta, delta, hsv.offset(), hsv.scale(), hsv.chroma());
    lemma_channel(max, max, len, delta, 0, hsv.offset(), hsv.scale(), 0);
    lemma_channel(max, max, len, delta, t, hsv.offset(), hsv.scale(), hsv.second());
}

/// With value `max / 255` and saturation `delta / unit`, a primed component
/// that is the fraction `t / delta` of the chroma comes out as the channel
/// `max - delta + t` (for a grey, with `delta` and `t` zero, as `max`).
proof fn lemma_channel(
    max: int,
    unit: int,
    len: int,
    delta: int,
    t: int,
    offset: int,
    scale: int,
    primed: int,
)
    requires
        0 <= max <= 255,
        0 < unit,
        0 < len,
        0 <= t <= delta <= max,
        delta == 0 || unit == max,
        scale == 255 * unit * len,
        offset == max * unit * len - max * delta * len,
        primed == max * len * t,
    ensures
        round_div(255 * (primed + offset), scale) == max - delta + t,
{
    let channel = max - delta + t;
    assert(scale > 0) by (nonlinear_arith)
        requires
            scale == 255 * unit * len,
            0 < unit,
            0 < len,
    ;
    if delta == 0 {
        assert(255 * (primed + offset) == channel * scale) by (nonlinear_arith)
            requires
                delta == 0,
                t == 0,
                channel == max,
                primed == max * len * t,
                scale == 255 * unit * len,
                offset == max * unit * len - max * delta * len,
        ;
    } else {
        assert(255 * (primed + offset) == channel * scale) by (nonlinear_arith)
            requires
                primed == max * len * t,
                channel == max - delta + t,
                unit == max,
                scale == 255 * unit * len,
                offset == max * unit * len - max * delta * len,
        ;
    }
    assert(2 * (255 * (primed + offset)) + scale == channel * (2 * scale) + scale)
        by (nonlinear_arith)
        requires
            255 * (primed + offset) == channel * scale,
    ;
    lemma_fundamental_div_mod_converse(
        2 * (255 * (primed + offset)) + scale,
        2 * scale,
        channel,
        scale,
    );
}

} // verus!
