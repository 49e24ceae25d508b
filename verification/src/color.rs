//! sRGB triples, fixed-point Oklab coordinates and the HyAB distance.

use vstd::prelude::*;
use vstd::string::StrSliceExecFns;
use vstd::string::StringExecFns;
use vstd::utf8::{encode_utf8, is_ascii_chars, is_ascii_chars_encode_utf8};

verus! {

/// Three 8-bit channels: red, green, blue.
#[allow(non_camel_case_types)]
pub type sRGB = [u8; 3];

/// A score or a distance, in fixed-point units chosen by the caller.
pub type Score = i64;

/// The canonical 24-bit index of a colour: `(R << 16) | (G << 8) | B`.
pub open spec fn index_of(c: sRGB) -> int {
    c[0] * 0x1_0000 + c[1] * 0x100 + c[2]
}

/// The colour whose canonical index is `i`.
pub open spec fn color_at(i: int) -> sRGB {
    [(i / 0x1_0000) as u8, ((i / 0x100) % 0x100) as u8, (i % 0x100) as u8]
}

/// Every colour is found again from its canonical index.
pub proof fn lemma_color_at_index(c: sRGB)
    ensures
        0 <= index_of(c) < 0x100_0000,
        color_at(index_of(c)) == c,
{
    let d = color_at(index_of(c));
    assert(d[0] == c[0] && d[1] == c[1] && d[2] == c[2]);
    assert(d =~= c);
}

/// Every index below 2^24 is the canonical index of its colour.
pub proof fn lemma_index_of_color_at(i: int)
    requires
        0 <= i < 0x100_0000,
    ensures
        index_of(color_at(i)) == i,
{
}

/// The canonical index of `c`, in RGB order.
pub fn as_index(c: &sRGB) -> (out: usize)
    ensures
        out == index_of(*c),
        out < 0x100_0000,
{
    let r = c[0];
    let g = c[1];
    let b = c[2];
    let mut out: usize = b as usize;
    out |= (g as usize) << 8;
    out |= (r as usize) << 16;
    assert(((b as usize) | ((g as usize) << 8) | ((r as usize) << 16)) == r * 0x1_0000 + g * 0x100
        + b) by (bit_vector);
    out
}

/// The colour with canonical index `i`.
pub fn from_index(i: usize) -> (c: sRGB)
    requires
        i < 0x100_0000,
    ensures
        c == color_at(i as int),
        index_of(c) == i,
{
    [(i / 0x1_0000) as u8, ((i / 0x100) % 0x100) as u8, (i % 0x100) as u8]
}

/// The sixteen hexadecimal digits, upper case.
pub open spec fn hex_digits() -> Seq<char> {
    "0123456789ABCDEF"@
}

/// `#RRGGBB`, upper case.
pub open spec fn hex_string(c: sRGB) -> Seq<char> {
    seq![
        '#',
        hex_digits()[c[0] as int / 16],
        hex_digits()[c[0] as int % 16],
        hex_digits()[c[1] as int / 16],
        hex_digits()[c[1] as int % 16],
        hex_digits()[c[2] as int / 16],
        hex_digits()[c[2] as int % 16],
    ]
}

/// The hexadecimal digit of `n`, as a text of one character.
fn hex_digit(n: u8) -> (s: &'static str)
    requires
        n < 16,
    ensures
        s@ == seq![hex_digits()[n as int]],
{
    let digits = "0123456789ABCDEF";
    proof {
        reveal_strlit("0123456789ABCDEF");
        assert(digits@.len() == 16);
        assert(digits.is_ascii()) by {
            assert forall|i: int| 0 <= i < digits@.len() implies (digits@[i] as nat) < 128 by {}
        }
    }
    let s = digits.substring_ascii(n as usize, n as usize + 1);
    assert(s@ =~= seq![hex_digits()[n as int]]);
    s
}

/// The colour as `#RRGGBB`, upper case.
pub fn to_string(c: &sRGB) -> (s: String)
    ensures
        s@ == hex_string(*c),
{
    let mut s = String::from_str("#");
    proof {
        reveal_strlit("#");
    }
    s.append(hex_digit(c[0] / 16));
    s.append(hex_digit(c[0] % 16));
    s.append(hex_digit(c[1] / 16));
    s.append(hex_digit(c[1] % 16));
    s.append(hex_digit(c[2] / 16));
    s.append(hex_digit(c[2] % 16));
    assert(s@ =~= hex_string(*c));
    s
}

/// The character `#`.
pub const ASCII_HASH: u8 = 0x23;

/// The character `0`.
pub const ASCII_0: u8 = 0x30;

/// The character `9`.
pub const ASCII_9: u8 = 0x39;

/// The character `A`.
pub const ASCII_UPPER_A: u8 = 0x41;

/// The character `F`.
pub const ASCII_UPPER_F: u8 = 0x46;

/// The character `a`.
pub const ASCII_LOWER_A: u8 = 0x61;

/// The character `f`.
pub const ASCII_LOWER_F: u8 = 0x66;

/// The value of a hexadecimal digit, of either case, given as a byte.
pub open spec fn hex_value(b: u8) -> Option<u8> {
    if ASCII_0 <= b <= ASCII_9 {
        Some((b - ASCII_0) as u8)
    } else if ASCII_LOWER_A <= b <= ASCII_LOWER_F {
        Some((b - ASCII_LOWER_A + 10) as u8)
    } else if ASCII_UPPER_A <= b <= ASCII_UPPER_F {
        Some((b - ASCII_UPPER_A + 10) as u8)
    } else {
        None
    }
}

/// The colour that six hexadecimal digits name; anything else names none.
pub open spec fn spec_parse_digits(digits: Seq<u8>) -> Option<sRGB> {
    if digits.len() == 6 && forall|k: int| 0 <= k < 6 ==> hex_value(#[trigger] digits[k]) is Some {
        Some(
            [
                (16 * hex_value(digits[0])->0 + hex_value(digits[1])->0) as u8,
                (16 * hex_value(digits[2])->0 + hex_value(digits[3])->0) as u8,
                (16 * hex_value(digits[4])->0 + hex_value(digits[5])->0) as u8,
            ],
        )
    } else {
        None
    }
}

/// The colour that a text names: six hexadecimal digits, of either case,
/// with or without one `#` before them. Any other text names none.
pub open spec fn spec_parse_hex(bytes: Seq<u8>) -> Option<sRGB> {
    if bytes.len() > 0 && bytes[0] == ASCII_HASH {
        spec_parse_digits(bytes.skip(1))
    } else {
        spec_parse_digits(bytes)
    }
}

/// The value of the hexadecimal digit `b`, if it is one.
fn hex_digit_value(b: u8) -> (v: Option<u8>)
    ensures
        v == hex_value(b),
        v matches Some(d) ==> d < 16,
{
    if b >= ASCII_0 && b <= ASCII_9 {
        Some(b - ASCII_0)
    } else if b >= ASCII_LOWER_A && b <= ASCII_LOWER_F {
        Some(b - ASCII_LOWER_A + 10)
    } else if b >= ASCII_UPPER_A && b <= ASCII_UPPER_F {
        Some(b - ASCII_UPPER_A + 10)
    } else {
        None
    }
}

/// The value of the two hexadecimal digits at `at` and `at + 1`.
fn hex_pair_value(bytes: &[u8], at: usize) -> (v: Option<u8>)
    requires
        at + 1 < bytes.len(),
    ensures
        v is Some <==> hex_value(bytes@[at as int]) is Some && hex_value(bytes@[at + 1]) is Some,
        v matches Some(x) ==> x == 16 * hex_value(bytes@[at as int])->0 + hex_value(
            bytes@[at + 1],
        )->0,
{
    match hex_digit_value(bytes[at]) {
        Some(high) => match hex_digit_value(bytes[at + 1]) {
            Some(low) => Some(16 * high + low),
            None => None,
        },
        None => None,
    }
}

/// Reads a colour from six hexadecimal digits, with or without a `#` before
/// them.
pub fn parse_hex(bytes: &[u8]) -> (c: Option<sRGB>)
    ensures
        c == spec_parse_hex(bytes@),
{
    let start: usize = if bytes.len() > 0 && bytes[0] == ASCII_HASH {
        1
    } else {
        0
    };
    let ghost digits = if start == 1 {
        bytes@.skip(1)
    } else {
        bytes@
    };
    if bytes.len() - start != 6 {
        return None;
    }
    assert(forall|k: int| 0 <= k < 6 ==> digits[k] == bytes@[start + k]);
    let r = match hex_pair_value(bytes, start) {
        Some(v) => v,
        None => {
            assert(!(hex_value(digits[0]) is Some) || !(hex_value(digits[1]) is Some));
            return None;
        },
    };
    let g = match hex_pair_value(bytes, start + 2) {
        Some(v) => v,
        None => {
            assert(!(hex_value(digits[2]) is Some) || !(hex_value(digits[3]) is Some));
            return None;
        },
    };
    let b = match hex_pair_value(bytes, start + 4) {
        Some(v) => v,
        None => {
            assert(!(hex_value(digits[4]) is Some) || !(hex_value(digits[5]) is Some));
            return None;
        },
    };
    assert forall|k: int| 0 <= k < 6 implies hex_value(#[trigger] digits[k]) is Some by {
        assert(k == 0 || k == 1 || k == 2 || k == 3 || k == 4 || k == 5);
    }
    Some([r, g, b])
}

/// Reads a colour from a text of six hexadecimal digits, with or without a
/// `#` before them.
#[allow(non_snake_case)]
pub fn parse_to_sRGB(c: String) -> (r: Option<sRGB>)
    ensures
        r == spec_parse_hex(encode_utf8(c@)),
{
    parse_hex(c.as_str().as_bytes())
}

/// What `to_string` writes, `parse_to_sRGB` reads back.
pub proof fn lemma_parse_hex_string(c: sRGB)
    ensures
        spec_parse_hex(encode_utf8(hex_string(c))) == Some(c),
{
    reveal_strlit("0123456789ABCDEF");
    let text = hex_string(c);
    assert forall|n: int| 0 <= n < 16 implies hex_value((#[trigger] hex_digits()[n]) as u8) == Some(
        n as u8,
    ) by {
        assert(n == 0 || n == 1 || n == 2 || n == 3 || n == 4 || n == 5 || n == 6 || n == 7 || n
            == 8 || n == 9 || n == 10 || n == 11 || n == 12 || n == 13 || n == 14 || n == 15);
    }
    assert forall|i: int| 0 <= i < text.len() implies (#[trigger] text[i] as nat) < 128 by {
        if i > 0 {
            let n = if i == 1 {
                c[0] as int / 16
            } else if i == 2 {
                c[0] as int % 16
            } else if i == 3 {
                c[1] as int / 16
            } else if i == 4 {
                c[1] as int % 16
            } else if i == 5 {
                c[2] as int / 16
            } else {
                c[2] as int % 16
            };
            assert(text[i] == hex_digits()[n]);
            assert(hex_value(hex_digits()[n] as u8) == Some(n as u8));
        }
    }
    assert(is_ascii_chars(text));
    is_ascii_chars_encode_utf8(text);
    let bytes = encode_utf8(text);
    assert(bytes =~= Seq::new(text.len(), |i: int| text[i] as u8));
    assert(bytes[0] == ASCII_HASH);
    let digits = bytes.skip(1);
    assert(digits[0] == hex_digits()[c[0] as int / 16] as u8);
    assert(digits[1] == hex_digits()[c[0] as int % 16] as u8);
    assert(digits[2] == hex_digits()[c[1] as int / 16] as u8);
    assert(digits[3] == hex_digits()[c[1] as int % 16] as u8);
    assert(digits[4] == hex_digits()[c[2] as int / 16] as u8);
    assert(digits[5] == hex_digits()[c[2] as int % 16] as u8);
    assert forall|k: int| 0 <= k < 6 implies hex_value(#[trigger] digits[k]) is Some by {
        assert(k == 0 || k == 1 || k == 2 || k == 3 || k == 4 || k == 5);
    }
    let parsed = spec_parse_hex(bytes)->0;
    assert(parsed[0] == c[0] && parsed[1] == c[1] && parsed[2] == c[2]);
    assert(parsed =~= c);
}

/// A colour in Oklab, each coordinate in fixed-point units chosen by the
/// caller (the same unit for all three).
#[allow(non_snake_case)]
#[derive(Debug, Clone, Copy, Default, PartialEq, Eq)]
pub struct Oklab {
    pub L: i32,
    pub a: i32,
    pub b: i32,
}

/// `r` is the integer square root of `n`, rounded down.
pub open spec fn is_floor_sqrt(n: int, r: int) -> bool {
    0 <= r && r * r <= n < (r + 1) * (r + 1)
}

/// The integer square root of `n`, rounded down (for `n >= 0`).
pub open spec fn floor_sqrt(n: int) -> int {
    choose|r: int| is_floor_sqrt(n, r)
}

/// At most one integer is the rounded-down square root of `n`, so whichever
/// is found is `floor_sqrt(n)`.
pub proof fn lemma_floor_sqrt_unique(n: int, r: int)
    requires
        is_floor_sqrt(n, r),
    ensures
        floor_sqrt(n) == r,
{
    let q = floor_sqrt(n);
    assert(is_floor_sqrt(n, q));
    assert(q == r) by (nonlinear_arith)
        requires
            0 <= r,
            0 <= q,
            r * r <= n < (r + 1) * (r + 1),
            q * q <= n < (q + 1) * (q + 1),
    {
        if q < r {
            assert((q + 1) * (q + 1) <= r * r);
        }
        if r < q {
            assert((r + 1) * (r + 1) <= q * q);
        }
    }
}

/// The integer square root of `n`, rounded down.
pub fn isqrt(n: u128) -> (r: u64)
    ensures
        r == floor_sqrt(n as int),
        is_floor_sqrt(n as int, r as int),
{
    let mut lo: u128 = 0;
    let mut hi: u128 = 0x1_0000_0000_0000_0000;
    assert(n < 0x1_0000_0000_0000_0000 * 0x1_0000_0000_0000_0000) by (nonlinear_arith)
        requires
            n <= u128::MAX,
    ;
    while hi - lo > 1
        invariant
            lo < hi <= 0x1_0000_0000_0000_0000,
            lo * lo <= n < hi * hi,
        decreases hi - lo,
    {
        let mid: u128 = lo + (hi - lo) / 2;
        assert(mid * mid < 0x1_0000_0000_0000_0000 * 0x1_0000_0000_0000_0000) by (nonlinear_arith)
            requires
                0 <= mid < 0x1_0000_0000_0000_0000,
        ;
        if mid * mid <= n {
            lo = mid;
        } else {
            hi = mid;
        }
    }
    proof {
        lemma_floor_sqrt_unique(n as int, lo as int);
    }
    lo as u64
}

/// The absolute difference of two integers.
pub open spec fn abs_diff(x: int, y: int) -> int {
    if x >= y {
        x - y
    } else {
        y - x
    }
}

/// The HyAB distance: `|dL| + sqrt(da^2 + db^2)`, the root rounded down.
pub open spec fn hyab(c1: Oklab, c2: Oklab) -> int {
    abs_diff(c1.L as int, c2.L as int) + floor_sqrt(
        (c1.a - c2.a) * (c1.a - c2.a) + (c1.b - c2.b) * (c1.b - c2.b),
    )
}

/// The square of a difference of two coordinates is the square of their
/// distance, and stays below 2^64.
proof fn lemma_square_bound(x: int, y: int)
    requires
        -0x8000_0000 <= x < 0x8000_0000,
        -0x8000_0000 <= y < 0x8000_0000,
    ensures
        0 <= (x - y) * (x - y) <= 0xffff_ffff * 0xffff_ffff,
        (x - y) * (x - y) == abs_diff(x, y) * abs_diff(x, y),
{
    let d = abs_diff(x, y);
    assert(0 <= d * d <= 0xffff_ffff * 0xffff_ffff) by (nonlinear_arith)
        requires
            0 <= d <= 0xffff_ffff,
    ;
    assert((x - y) * (x - y) == d * d) by (nonlinear_arith)
        requires
            d == x - y || d == y - x,
    ;
}

/// A HyAB distance is never negative and stays below 2^34, whatever the
/// coordinates.
pub proof fn lemma_hyab_bounds(c1: Oklab, c2: Oklab)
    ensures
        0 <= hyab(c1, c2) < 0x4_0000_0000,
{
    let n = (c1.a - c2.a) * (c1.a - c2.a) + (c1.b - c2.b) * (c1.b - c2.b);
    lemma_square_bound(c1.a as int, c2.a as int);
    lemma_square_bound(c1.b as int, c2.b as int);
    lemma_floor_sqrt_exists(n);
    let r = floor_sqrt(n);
    assert(r < 0x2_0000_0000) by (nonlinear_arith)
        requires
            0 <= r,
            r * r <= n,
            n <= 2 * (0xffff_ffff * 0xffff_ffff),
    ;
}

/// Every natural number has a rounded-down square root.
pub proof fn lemma_floor_sqrt_exists(n: int)
    requires
        0 <= n,
    ensures
        is_floor_sqrt(n, floor_sqrt(n)),
    decreases n,
{
    if n == 0 {
        assert(is_floor_sqrt(0, 0));
    } else {
        lemma_floor_sqrt_exists(n - 1);
        let r = floor_sqrt(n - 1);
        if (r + 1) * (r + 1) <= n {
            assert((r + 1) * (r + 1) == n);
            assert(n < (r + 2) * (r + 2)) by (nonlinear_arith)
                requires
                    (r + 1) * (r + 1) == n,
                    0 <= r,
            ;
            assert(is_floor_sqrt(n, r + 1));
        } else {
            assert(r * r <= n);
            assert(is_floor_sqrt(n, r));
        }
    }
}

/// HyAB does not depend on the order of its arguments.
pub proof fn lemma_hyab_symmetric(c1: Oklab, c2: Oklab)
    ensures
        hyab(c1, c2) == hyab(c2, c1),
{
    assert((c1.a - c2.a) * (c1.a - c2.a) == (c2.a - c1.a) * (c2.a - c1.a)) by (nonlinear_arith);
    assert((c1.b - c2.b) * (c1.b - c2.b) == (c2.b - c1.b) * (c2.b - c1.b)) by (nonlinear_arith);
}

/// HyAB is zero between equal colours and between no others.
pub proof fn lemma_hyab_zero_iff_equal(c1: Oklab, c2: Oklab)
    ensures
        hyab(c1, c2) == 0 <==> c1 == c2,
{
    let da: int = c1.a - c2.a;
    let db: int = c1.b - c2.b;
    let n: int = da * da + db * db;
    assert(da * da >= 0 && db * db >= 0) by (nonlinear_arith);
    lemma_floor_sqrt_exists(n);
    if c1 == c2 {
        assert(da == 0 && db == 0);
        assert(da * da == 0 && db * db == 0) by (nonlinear_arith)
            requires
                da == 0,
                db == 0,
        ;
        lemma_floor_sqrt_unique(0, 0);
    }
    if hyab(c1, c2) == 0 {
        let r = floor_sqrt(n);
        assert(r == 0 && abs_diff(c1.L as int, c2.L as int) == 0);
        assert(n < (r + 1) * (r + 1));
        assert((r + 1) * (r + 1) == 1) by (nonlinear_arith)
            requires
                r == 0,
        ;
        assert(da == 0 && db == 0) by (nonlinear_arith)
            requires
                da * da + db * db < 1,
        ;
    }
}

/// The distance between two coordinates.
fn coordinate_distance(x: i32, y: i32) -> (d: u64)
    ensures
        d == abs_diff(x as int, y as int),
        d <= 0xffff_ffff,
{
    if x >= y {
        (x as i64 - y as i64) as u64
    } else {
        (y as i64 - x as i64) as u64
    }
}

/// The HyAB distance between two colours.
#[allow(non_snake_case)]
pub fn HyAB(c1: &Oklab, c2: &Oklab) -> (d: Score)
    ensures
        d == hyab(*c1, *c2),
        0 <= d < 0x4_0000_0000,
{
    let dl: u64 = coordinate_distance(c1.L, c2.L);
    let da: u64 = coordinate_distance(c1.a, c2.a);
    let db: u64 = coordinate_distance(c1.b, c2.b);
    proof {
        lemma_square_bound(c1.a as int, c2.a as int);
        lemma_square_bound(c1.b as int, c2.b as int);
        lemma_hyab_bounds(*c1, *c2);
    }
    let n: u128 = (da as u128) * (da as u128) + (db as u128) * (db as u128);
    let r: u64 = isqrt(n);
    (dl + r) as i64
}

} // verus!
