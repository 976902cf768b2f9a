//! Colours with 8-bit channels, their hex notation, complement and the
//! redmean distance between two of them.
//!
//! The redmean distance `d` of two colours is the square root of a rational
//! number. Everything here works with the integer `512 * d * d` instead, called
//! the *measure* of the two colours: it is exact, it orders pairs of colours as
//! `d` does, and `d < t` holds exactly when the measure is below `512 * t * t`.

use crate::hsv::HSV;
use crate::random::random_channel;
use rand::rngs::StdRng;
use vstd::prelude::*;

verus! {

/// An ordered triple of channel values: red, green, blue.
#[derive(Clone, Copy, Debug, PartialEq, Eq, Hash)]
pub struct Rgb<T>(pub [T; 3]);

impl Rgb<u8> {
    /// The red channel.
    pub open spec fn r(self) -> int {
        self.0[0] as int
    }

    /// The green channel.
    pub open spec fn g(self) -> int {
        self.0[1] as int
    }

    /// The blue channel.
    pub open spec fn b(self) -> int {
        self.0[2] as int
    }

    /// The colour as one number, `0xRRGGBB`.
    pub open spec fn spec_key(self) -> int {
        self.r() * 65536 + self.g() * 256 + self.b()
    }

    /// Two colours are the same exactly when their three channels agree.
    pub proof fn lemma_channels_decide(self, other: Rgb<u8>)
        ensures
            (self == other) <==> (self.r() == other.r() && self.g() == other.g() && self.b()
                == other.b()),
    {
        if self.r() == other.r() && self.g() == other.g() && self.b() == other.b() {
            assert(self.0 =~= other.0);
        }
    }

    /// Distinct colours have distinct keys.
    pub proof fn lemma_key_injective(self, other: Rgb<u8>)
        ensures
            (self.spec_key() == other.spec_key()) <==> (self == other),
            0 <= self.spec_key() < 0x100_0000,
    {
        self.lemma_channels_decide(other);
    }

    /// Whether two colours are the same.
    pub fn same(self, other: Rgb<u8>) -> (eq: bool)
        ensures
            eq == (self == other),
    {
        proof {
            self.lemma_channels_decide(other);
        }
        self.0[0] == other.0[0] && self.0[1] == other.0[1] && self.0[2] == other.0[2]
    }

    /// The colour as one number, `0xRRGGBB`.
    pub fn key(self) -> (k: u32)
        ensures
            k == self.spec_key(),
    {
        let r: u32 = self.0[0] as u32;
        let g: u32 = self.0[1] as u32;
        let b: u32 = self.0[2] as u32;
        r * 65536 + g * 256 + b
    }
}

/// Whether `c` occurs in `colors`.
pub fn contains_color(colors: &Vec<Rgb<u8>>, c: Rgb<u8>) -> (found: bool)
    ensures
        found == colors@.contains(c),
{
    let mut i: usize = 0;
    while i < colors.len()
        invariant
            i <= colors.len(),
            forall|j: int| 0 <= j < i ==> colors@[j] != c,
        decreases colors.len() - i,
    {
        if colors[i].same(c) {
            return true;
        }
        i += 1;
    }
    false
}

/// The least distance, in whole units, that two colours of one palette keep.
pub const MIN_DISTANCE: u32 = 20;

/// The measure of two colours at distance `units`: `512 * units * units`.
pub open spec fn measure_of(units: int) -> int {
    512 * units * units
}

/// The measure of two colours, 512 times the square of their redmean distance.
///
/// With `ar` the mean of the two reds, the squared distance is
/// `(2 + ar/256) * dr^2 + 4 * dg^2 + (2 + (256 - ar)/256) * db^2`.
pub open spec fn measure(a: Rgb<u8>, b: Rgb<u8>) -> int {
    let reds = a.r() + b.r();
    let dr = a.r() - b.r();
    let dg = a.g() - b.g();
    let db = a.b() - b.b();
    (1024 + reds) * (dr * dr) + 2048 * (dg * dg) + (1536 - reds) * (db * db)
}

/// The largest measure that two colours can have.
pub const MAX_MEASURE: u32 = 299_635_200;

/// The character that stands for `n` in upper-case hexadecimal.
pub open spec fn hex_char(n: int) -> char {
    if n == 0 {
        '0'
    } else if n == 1 {
        '1'
    } else if n == 2 {
        '2'
    } else if n == 3 {
        '3'
    } else if n == 4 {
        '4'
    } else if n == 5 {
        '5'
    } else if n == 6 {
        '6'
    } else if n == 7 {
        '7'
    } else if n == 8 {
        '8'
    } else if n == 9 {
        '9'
    } else if n == 10 {
        'A'
    } else if n == 11 {
        'B'
    } else if n == 12 {
        'C'
    } else if n == 13 {
        'D'
    } else if n == 14 {
        'E'
    } else {
        'F'
    }
}

/// The hex notation of a colour: `#`, then two upper-case digits per channel.
pub open spec fn hex_of(c: Rgb<u8>) -> Seq<char> {
    seq![
        '#',
        hex_char(c.r() / 16),
        hex_char(c.r() % 16),
        hex_char(c.g() / 16),
        hex_char(c.g() % 16),
        hex_char(c.b() / 16),
        hex_char(c.b() % 16),
    ]
}

/// The one-character string that stands for the hex digit `n`.
fn hex_digit(n: u8) -> (s: &'static str)
    requires
        n < 16,
    ensures
        s@ == seq![hex_char(n as int)],
{
    proof {
        reveal_strlit("0");
        reveal_strlit("1");
        reveal_strlit("2");
        reveal_strlit("3");
        reveal_strlit("4");
        reveal_strlit("5");
        reveal_strlit("6");
        reveal_strlit("7");
        reveal_strlit("8");
        reveal_strlit("9");
        reveal_strlit("A");
        reveal_strlit("B");
        reveal_strlit("C");
        reveal_strlit("D");
        reveal_strlit("E");
        reveal_strlit("F");
    }
    let s = match n {
        0 => "0",
        1 => "1",
        2 => "2",
        3 => "3",
        4 => "4",
        5 => "5",
        6 => "6",
        7 => "7",
        8 => "8",
        9 => "9",
        10 => "A",
        11 => "B",
        12 => "C",
        13 => "D",
        14 => "E",
        _ => "F",
    };
    assert(s@ =~= seq![hex_char(n as int)]);
    s
}

/// The square of the difference of two channels.
fn diff_sq(x: u8, y: u8) -> (sq: u32)
    ensures
        sq == (x - y) * (x - y),
        sq <= 65025,
{
    let d: u32 = if x >= y {
        (x - y) as u32
    } else {
        (y - x) as u32
    };
    assert(d * d == (x - y) * (x - y)) by (nonlinear_arith)
        requires
            d == x - y || d == y - x,
    ;
    assert(d * d <= 65025) by (nonlinear_arith)
        requires
            d <= 255,
    ;
    d * d
}

pub struct ColorUtil {}

impl ColorUtil {
    /// The colour whose channels are 255 minus those of `c`.
    pub open spec fn complement(c: Rgb<u8>) -> Rgb<u8> {
        Rgb([(255 - c.r()) as u8, (255 - c.g()) as u8, (255 - c.b()) as u8])
    }

    /// The measure of `c1` and `c2`: 512 times the square of their redmean
    /// distance.
    pub fn color_distance(c1: Rgb<u8>, c2: Rgb<u8>) -> (m: u32)
        ensures
            m == measure(c1, c2),
            m <= MAX_MEASURE,
    {
        let reds: u32 = c1.0[0] as u32 + c2.0[0] as u32;
        let dr = diff_sq(c1.0[0], c2.0[0]);
        let dg = diff_sq(c1.0[1], c2.0[1]);
        let db = diff_sq(c1.0[2], c2.0[2]);
        proof {
            lemma_measure_bounds(reds as int, dr as int, dg as int, db as int);
        }
        (1024 + reds) * dr + 2048 * dg + (1536 - reds) * db
    }

    /// The measure of two colours at distance `units`, for use as a bound.
    pub fn threshold(units: u16) -> (m: u64)
        ensures
            m == measure_of(units as int),
    {
        let u: u64 = units as u64;
        assert(512 * u * u <= 512 * 65535 * 65535) by (nonlinear_arith)
            requires
                u <= 65535,
        ;
        512 * u * u
    }

    /// The hex notation of a colour, such as `#64C09A`.
    pub fn rgb_to_hex(color: Rgb<u8>) -> (hex: String)
        ensures
            hex@ == hex_of(color),
    {
        proof {
            reveal_strlit("#");
        }
        let mut hex = String::from_str("#");
        hex.append(hex_digit(color.0[0] / 16));
        hex.append(hex_digit(color.0[0] % 16));
        hex.append(hex_digit(color.0[1] / 16));
        hex.append(hex_digit(color.0[1] % 16));
        hex.append(hex_digit(color.0[2] / 16));
        hex.append(hex_digit(color.0[2] % 16));
        assert(hex@ =~= hex_of(color));
        hex
    }

    /// The complement of `c`: each channel taken from 255.
    pub fn get_compliment(c: Rgb<u8>) -> (out: Rgb<u8>)
        ensures
            out == Self::complement(c),
    {
        Rgb([255 - c.0[0], 255 - c.0[1], 255 - c.0[2]])
    }

    /// A colour whose three channels `rng` picks.
    pub fn rand_color(rng: &mut StdRng) -> Rgb<u8> {
        let r = random_channel(rng);
        let g = random_channel(rng);
        let b = random_channel(rng);
        Rgb([r, g, b])
    }

    /// The two colours whose hues lie 30 degrees to either side of the hue
    /// opposite to that of `c`, with the saturation and value of `c`: first the
    /// one at 210 degrees from `c`, then the one at 150 degrees.
    pub fn split_complement(c: &HSV) -> (pair: (Rgb<u8>, Rgb<u8>))
        requires
            c.valid(),
        ensures
            pair == Self::spec_split_complement(*c),
    {
        let h0 = c.rotated(210);
        let h1 = c.rotated(150);
        (HSV::hsv_to_rgb(h0), HSV::hsv_to_rgb(h1))
    }

    /// The split complement of an HSV colour: see `split_complement`.
    pub open spec fn spec_split_complement(c: HSV) -> (Rgb<u8>, Rgb<u8>) {
        (c.spec_rotated(210).spec_to_rgb(), c.spec_rotated(150).spec_to_rgb())
    }

    /// The distance is symmetric.
    pub proof fn lemma_distance_symmetric(a: Rgb<u8>, b: Rgb<u8>)
        ensures
            measure(a, b) == measure(b, a),
    {
        lemma_square_symmetric(a.r(), b.r());
        lemma_square_symmetric(a.g(), b.g());
        lemma_square_symmetric(a.b(), b.b());
    }

    /// The distance of two colours is zero exactly when they are the same, and
    /// never negative.
    pub proof fn lemma_distance_identity(a: Rgb<u8>, b: Rgb<u8>)
        ensures
            measure(a, a) == 0,
            0 <= measure(a, b) <= MAX_MEASURE,
            measure(a, b) == 0 <==> a == b,
    {
        let reds = a.r() + b.r();
        let dr = a.r() - b.r();
        let dg = a.g() - b.g();
        let db = a.b() - b.b();
        lemma_square_bounds(0);
        lemma_measure_bounds(a.r() + a.r(), 0, 0, 0);
        lemma_square_bounds(dr);
        lemma_square_bounds(dg);
        lemma_square_bounds(db);
        lemma_measure_bounds(reds, dr * dr, dg * dg, db * db);
        a.lemma_channels_decide(b);
    }

    /// Taking the complement twice gives the colour back.
    pub proof fn lemma_complement_involution(c: Rgb<u8>)
        ensures
            Self::complement(Self::complement(c)) == c,
    {
        c.lemma_channels_decide(Self::complement(Self::complement(c)));
    }
}

proof fn lemma_square_symmetric(x: int, y: int)
    ensures
        (x - y) * (x - y) == (y - x) * (y - x),
{
    assert((x - y) * (x - y) == (y - x) * (y - x)) by (nonlinear_arith);
}

proof fn lemma_square_bounds(d: int)
    requires
        -255 <= d <= 255,
    ensures
        0 <= d * d <= 65025,
        d * d == 0 <==> d == 0,
{
    assert(0 <= d * d <= 65025 && (d * d == 0 <==> d == 0)) by (nonlinear_arith)
        requires
            -255 <= d <= 255,
    ;
}

/// The weighted sum of three squares stays in range, and vanishes only when
/// all three do.
proof fn lemma_measure_bounds(reds: int, dr: int, dg: int, db: int)
    requires
        0 <= reds <= 510,
        0 <= dr <= 65025,
        0 <= dg <= 65025,
        0 <= db <= 65025,
    ensures
        0 <= (1024 + reds) * dr <= 1534 * 65025,
        0 <= (1536 - reds) * db <= 1536 * 65025,
        0 <= (1024 + reds) * dr + 2048 * dg + (1536 - reds) * db <= MAX_MEASURE,
        (1024 + reds) * dr + 2048 * dg + (1536 - reds) * db == 0 <==> (dr == 0 && dg == 0 && db
            == 0),
{
    assert(0 <= (1024 + reds) * dr <= 1534 * 65025 && ((1024 + reds) * dr == 0 <==> dr == 0))
        by (nonlinear_arith)
        requires
            0 <= reds <= 510,
            0 <= dr <= 65025,
    ;
    assert(0 <= (1536 - reds) * db <= 1536 * 65025 && ((1536 - reds) * db == 0 <==> db == 0))
        by (nonlinear_arith)
        requires
            0 <= reds <= 510,
            0 <= db <= 65025,
    ;
    assert((1024 + reds) * dr + (1536 - reds) * db <= 2560 * 65025) by (nonlinear_arith)
        requires
            0 <= reds <= 510,
            0 <= dr <= 65025,
            0 <= db <= 65025,
    ;
}

} // verus!
