//! Integer literals of Auto Assembler: parsing of hexadecimal, decimal (`#`)
//! and `(int)` notation, and the conversions shown on hover.
use vstd::prelude::*;
use vstd::string::StringSliceAdditionalSpecFns;
use crate::text::{lower_bytes, slice_range};

verus! {

/// Value of an ASCII digit in base `radix` (10 or 16), or `None`.
pub open spec fn digit_value(b: u8, radix: nat) -> Option<nat> {
    if 48 <= b && b <= 57 {
        Some((b - 48) as nat)
    } else if radix == 16 && 97 <= b && b <= 102 {
        Some((b - 87) as nat)
    } else if radix == 16 && 65 <= b && b <= 70 {
        Some((b - 55) as nat)
    } else {
        None
    }
}

pub open spec fn all_digits(s: Seq<u8>, radix: nat) -> bool {
    forall|i: int| 0 <= i < s.len() ==> (#[trigger] digit_value(s[i], radix)) is Some
}

/// The number written by the digits `s` in base `radix`.
pub open spec fn digits_value(s: Seq<u8>, radix: nat) -> nat
    decreases s.len(),
{
    if s.len() == 0 {
        0
    } else {
        digits_value(s.drop_last(), radix) * radix + match digit_value(s.last(), radix) {
            Some(d) => d,
            None => 0,
        }
    }
}

/// Parses an unsigned number in base `radix` the way std's integer parsing
/// does: an optional `+`, then at least one digit, at most `limit`.
pub open spec fn parse_unsigned(s: Seq<u8>, radix: nat, limit: nat) -> Option<nat> {
    let digits = if s.len() > 0 && s[0] == 43 {
        s.drop_first()
    } else {
        s
    };
    if digits.len() == 0 || !all_digits(digits, radix) || digits_value(digits, radix) > limit {
        None
    } else {
        Some(digits_value(digits, radix))
    }
}

/// `str::parse::<u64>` on decimal text.
pub open spec fn parse_u64(s: Seq<u8>) -> Option<nat> {
    parse_unsigned(s, 10, u64::MAX as nat)
}

/// `u64::from_str_radix(s, 16)`.
pub open spec fn parse_hex_u64(s: Seq<u8>) -> Option<nat> {
    parse_unsigned(s, 16, u64::MAX as nat)
}

/// `str::parse::<i64>`: an optional `+` or `-`, then at least one decimal digit.
pub open spec fn parse_i64(s: Seq<u8>) -> Option<int> {
    let negative = s.len() > 0 && s[0] == 45;
    let digits = if s.len() > 0 && (s[0] == 43 || s[0] == 45) {
        s.drop_first()
    } else {
        s
    };
    if digits.len() == 0 || !all_digits(digits, 10) {
        None
    } else if negative {
        if digits_value(digits, 10) <= 0x8000_0000_0000_0000 {
            Some(-(digits_value(digits, 10) as int))
        } else {
            None
        }
    } else if digits_value(digits, 10) <= 0x7FFF_FFFF_FFFF_FFFF {
        Some(digits_value(digits, 10) as int)
    } else {
        None
    }
}

/// The character of digit `d` (`0`-`9`, then upper-case `A`-`F`).
pub open spec fn digit_char(d: nat) -> char {
    if d < 10 {
        ((48 + d) as u32) as char
    } else {
        ((55 + d) as u32) as char
    }
}

/// `n` written in base `radix` with upper-case digits, as `{:X}` and `{}` print it.
pub open spec fn radix_text(n: nat, radix: nat) -> Seq<char>
    decreases n,
{
    if radix < 2 || n < radix {
        seq![digit_char(n)]
    } else {
        proof {
            assert(n / radix < n) by (nonlinear_arith)
                requires
                    radix >= 2,
                    n >= radix,
            ;
        }
        radix_text(n / radix, radix) + seq![digit_char(n % radix)]
    }
}

pub open spec fn hex_text(n: nat) -> Seq<char> {
    radix_text(n, 16)
}

pub open spec fn dec_text(n: nat) -> Seq<char> {
    radix_text(n, 10)
}

/// A signed decimal: a `-` before the magnitude of a negative number.
pub open spec fn signed_text(v: int) -> Seq<char> {
    if v < 0 {
        "-"@ + dec_text((-v) as nat)
    } else {
        dec_text(v as nat)
    }
}

/// The bit width whose sign bit decides the signed reading of a literal
/// written with `digits` hexadecimal digits.
pub open spec fn width_for_digits(digits: nat) -> nat {
    if digits <= 2 {
        8
    } else if digits <= 4 {
        16
    } else if digits <= 8 {
        32
    } else {
        64
    }
}

/// The value of the sign bit of a width of 8, 16, 32 or 64 bits.
pub open spec fn sign_bit_value(width: nat) -> nat {
    if width == 8 {
        0x80
    } else if width == 16 {
        0x8000
    } else if width == 32 {
        0x8000_0000
    } else {
        0x8000_0000_0000_0000
    }
}

/// Hover text of an unsigned value: hexadecimal and decimal, then, when the
/// sign bit of its width is set, the value read as a signed integer of that width.
pub open spec fn unsigned_hover(value: nat, digits: nat) -> Seq<char> {
    let width = width_for_digits(digits);
    let base = "0x"@ + hex_text(value) + "\n0d"@ + dec_text(value);
    if (value / sign_bit_value(width)) % 2 == 1 {
        base + "\n"@ + signed_text(value - 2 * sign_bit_value(width))
    } else {
        base
    }
}

proof fn lemma_sign_bit(value: nat, half: nat)
    requires
        half > 0,
        value < 2 * half,
    ensures
        (value / half) % 2 == 1 <==> value >= half,
{
    if value >= half {
        assert(value / half == 1) by (nonlinear_arith)
            requires
                half > 0,
                half <= value < 2 * half,
        ;
    } else {
        assert(value / half == 0) by (nonlinear_arith)
            requires
                half > 0,
                value < half,
        ;
    }
}

/// An unsigned literal's hover gives its hexadecimal and decimal forms and,
/// when the top bit of the width its digits are written in is set, its
/// reading as a signed integer of that width: up to 2 hexadecimal digits
/// are 8 bits wide, 3 or 4 digits 16 bits, 5 to 8 digits 32 bits, and more
/// digits 64 bits.
pub proof fn law_hover_reads_the_sign_of_the_written_width(value: nat, digits: nat)
    requires
        value < 0x1_0000_0000_0000_0000,
    ensures
        digits <= 2 && value < 0x100 ==> unsigned_hover(value, digits) == if value >= 0x80 {
            "0x"@ + hex_text(value) + "\n0d"@ + dec_text(value) + "\n"@ + signed_text(value - 0x100)
        } else {
            "0x"@ + hex_text(value) + "\n0d"@ + dec_text(value)
        },
        3 <= digits <= 4 && value < 0x1_0000 ==> unsigned_hover(value, digits) == if value >= 0x8000 {
            "0x"@ + hex_text(value) + "\n0d"@ + dec_text(value) + "\n"@ + signed_text(value - 0x1_0000)
        } else {
            "0x"@ + hex_text(value) + "\n0d"@ + dec_text(value)
        },
        5 <= digits <= 8 && value < 0x1_0000_0000 ==> unsigned_hover(value, digits) == if value
            >= 0x8000_0000 {
            "0x"@ + hex_text(value) + "\n0d"@ + dec_text(value) + "\n"@ + signed_text(
                value - 0x1_0000_0000,
            )
        } else {
            "0x"@ + hex_text(value) + "\n0d"@ + dec_text(value)
        },
        9 <= digits ==> unsigned_hover(value, digits) == if value >= 0x8000_0000_0000_0000 {
            "0x"@ + hex_text(value) + "\n0d"@ + dec_text(value) + "\n"@ + signed_text(
                value - 0x1_0000_0000_0000_0000,
            )
        } else {
            "0x"@ + hex_text(value) + "\n0d"@ + dec_text(value)
        },
{
    if digits <= 2 && value < 0x100 {
        lemma_sign_bit(value, 0x80);
    }
    if 3 <= digits <= 4 && value < 0x1_0000 {
        lemma_sign_bit(value, 0x8000);
    }
    if 5 <= digits <= 8 && value < 0x1_0000_0000 {
        lemma_sign_bit(value, 0x8000_0000);
    }
    if 9 <= digits {
        lemma_sign_bit(value, 0x8000_0000_0000_0000);
    }
}

/// Hover text of a signed decimal literal, or `None` when it is not one.
pub open spec fn signed_hover(decimal: Seq<u8>) -> Option<Seq<char>> {
    match parse_i64(decimal) {
        Some(v) => {
            let sign = if v < 0 {
                "-"@
            } else {
                Seq::<char>::empty()
            };
            let m: nat = if v < 0 {
                (-v) as nat
            } else {
                v as nat
            };
            Some(sign + "0x"@ + hex_text(m) + "\n"@ + sign + "0d"@ + dec_text(m))
        },
        None => None,
    }
}

pub open spec fn has_prefix(s: Seq<u8>, p: Seq<u8>) -> bool {
    p.len() <= s.len() && s.subrange(0, p.len() as int) == p
}

/// `(int)`
pub open spec fn int_cast() -> Seq<u8> {
    seq![40u8, 105, 110, 116, 41]
}

/// `(float)`
pub open spec fn float_cast() -> Seq<u8> {
    seq![40u8, 102, 108, 111, 97, 116, 41]
}

/// `(double)`
pub open spec fn double_cast() -> Seq<u8> {
    seq![40u8, 100, 111, 117, 98, 108, 101, 41]
}

/// The hover of an integer literal: `(float)`/`(double)` values have none,
/// `(int)` and signed `#` values are signed decimals, other `#` values are
/// unsigned decimals, and everything else is hexadecimal with an optional
/// `$`, `0x` or `0X` prefix.
pub open spec fn integer_hover_text(t: Seq<u8>) -> Option<Seq<char>> {
    let l = lower_bytes(t);
    if has_prefix(l, float_cast()) || has_prefix(l, double_cast()) {
        None
    } else if has_prefix(l, int_cast()) {
        signed_hover(l.subrange(5, l.len() as int))
    } else if t.len() > 0 && t[0] == 35 {
        let d = t.subrange(1, t.len() as int);
        if d.len() > 0 && (d[0] == 43 || d[0] == 45) {
            signed_hover(d)
        } else {
            match parse_u64(d) {
                Some(v) => Some(unsigned_hover(v, hex_text(v).len())),
                None => None,
            }
        }
    } else {
        let digits = if t.len() > 0 && t[0] == 36 {
            t.subrange(1, t.len() as int)
        } else if has_prefix(t, seq![48u8, 120]) || has_prefix(t, seq![48u8, 88]) {
            t.subrange(2, t.len() as int)
        } else {
            t
        };
        match parse_hex_u64(digits) {
            Some(v) => Some(unsigned_hover(v, digits.len())),
            None => None,
        }
    }
}

proof fn lemma_digits_value_prefix(s: Seq<u8>, radix: nat, i: int)
    requires
        0 <= i <= s.len(),
        radix >= 1,
    ensures
        digits_value(s.subrange(0, i), radix) <= digits_value(s, radix),
    decreases s.len() - i,
{
    if i < s.len() {
        lemma_digits_value_prefix(s, radix, i + 1);
        let p = s.subrange(0, i + 1);
        assert(p.drop_last() =~= s.subrange(0, i));
        assert(digits_value(p, radix) >= digits_value(s.subrange(0, i), radix) * radix) by {
            assert(digits_value(p, radix) == digits_value(p.drop_last(), radix) * radix + match digit_value(p.last(), radix) {
                Some(d) => d,
                None => 0,
            });
        }
        assert(digits_value(s.subrange(0, i), radix) * radix >= digits_value(s.subrange(0, i), radix)) by (nonlinear_arith)
            requires radix >= 1;
    } else {
        assert(s.subrange(0, i) =~= s);
    }
}

/// Reads `s[start..]` as digits in base `radix` (10 or 16); `None` when a
/// byte is not a digit, the digits are empty, or the value exceeds `limit`.
fn parse_digits(s: &[u8], start: usize, radix: u64, limit: u64) -> (r: Option<u64>)
    requires
        start <= s@.len(),
        radix == 10 || radix == 16,
    ensures
        ({
            let d = s@.subrange(start as int, s@.len() as int);
            match r {
                Some(v) => d.len() > 0 && all_digits(d, radix as nat) && digits_value(d, radix as nat) == v
                    && v <= limit,
                None => d.len() == 0 || !all_digits(d, radix as nat) || digits_value(d, radix as nat) > limit,
            }
        }),
{
    let ghost d = s@.subrange(start as int, s@.len() as int);
    if start == s.len() {
        return None;
    }
    let mut acc: u64 = 0;
    let mut i = start;
    while i < s.len()
        invariant
            start <= i <= s@.len(),
            d == s@.subrange(start as int, s@.len() as int),
            radix == 10 || radix == 16,
            all_digits(d.subrange(0, i - start), radix as nat),
            acc == digits_value(d.subrange(0, i - start), radix as nat),
            acc <= limit,
        decreases s@.len() - i,
    {
        let b = s[i];
        assert(d[i - start] == b);
        let dv: u64 = if 48 <= b && b <= 57 {
            (b - 48) as u64
        } else if radix == 16 && 97 <= b && b <= 102 {
            (b - 87) as u64
        } else if radix == 16 && 65 <= b && b <= 70 {
            (b - 55) as u64
        } else {
            assert(digit_value(d[i - start], radix as nat) is None);
            assert(!all_digits(d, radix as nat));
            return None;
        };
        let ghost p = d.subrange(0, i - start + 1);
        assert(p.drop_last() =~= d.subrange(0, i - start));
        assert(digits_value(p, radix as nat) == acc * radix + dv);
        assert(all_digits(p, radix as nat)) by {
            assert forall|j: int| 0 <= j < p.len() implies (#[trigger] digit_value(p[j], radix as nat)) is Some by {
                if j < p.len() - 1 {
                    assert(p[j] == d.subrange(0, i - start)[j]);
                }
            }
        }
        if dv > limit {
            proof {
                if all_digits(d, radix as nat) {
                    lemma_digits_value_prefix(d, radix as nat, i - start + 1);
                }
            }
            return None;
        }
        let q = (limit - dv) / radix;
        if acc > q {
            proof {
                let (a, r, v, l, qq) = (acc as int, radix as int, dv as int, limit as int, q as int);
                assert(a * r + v > l) by (nonlinear_arith)
                    requires
                        a > qq,
                        qq == (l - v) / r,
                        r > 0,
                        v <= l,
                ;
                if all_digits(d, radix as nat) {
                    lemma_digits_value_prefix(d, radix as nat, i - start + 1);
                }
            }
            return None;
        }
        proof {
            let (a, r, v, l, qq) = (acc as int, radix as int, dv as int, limit as int, q as int);
            assert(a * r + v <= l) by (nonlinear_arith)
                requires
                    a <= qq,
                    qq == (l - v) / r,
                    r > 0,
                    v <= l,
            ;
        }
        acc = acc * radix + dv;
        i = i + 1;
    }
    assert(d.subrange(0, i - start) =~= d);
    Some(acc)
}

/// Parses `s[start..]` as std parses an unsigned number in base `radix`.
pub(crate) fn parse_unsigned_at(s: &[u8], start: usize, radix: u64, limit: u64) -> (r: Option<u64>)
    requires
        start <= s@.len(),
        radix == 10 || radix == 16,
    ensures
        r matches Some(v) ==> parse_unsigned(s@.subrange(start as int, s@.len() as int), radix as nat, limit as nat) == Some(v as nat),
        r is None ==> parse_unsigned(s@.subrange(start as int, s@.len() as int), radix as nat, limit as nat) is None,
{
    let ghost d = s@.subrange(start as int, s@.len() as int);
    if start < s.len() && s[start] == 43 {
        assert(d.drop_first() =~= s@.subrange(start + 1, s@.len() as int));
        parse_digits(s, start + 1, radix, limit)
    } else {
        parse_digits(s, start, radix, limit)
    }
}

/// Parses `s[start..]` as `str::parse::<i64>` does.
fn parse_signed_at(s: &[u8], start: usize) -> (r: Option<i64>)
    requires
        start <= s@.len(),
    ensures
        r matches Some(v) ==> parse_i64(s@.subrange(start as int, s@.len() as int)) == Some(v as int),
        r is None ==> parse_i64(s@.subrange(start as int, s@.len() as int)) is None,
{
    let ghost d = s@.subrange(start as int, s@.len() as int);
    if start < s.len() && (s[start] == 43 || s[start] == 45) {
        assert(d.drop_first() =~= s@.subrange(start + 1, s@.len() as int));
        let negative = s[start] == 45;
        let limit: u64 = if negative {
            0x8000_0000_0000_0000
        } else {
            0x7FFF_FFFF_FFFF_FFFF
        };
        match parse_digits(s, start + 1, 10, limit) {
            Some(m) => {
                if negative {
                    if m == 0x8000_0000_0000_0000 {
                        Some(i64::MIN)
                    } else {
                        Some(-(m as i64))
                    }
                } else {
                    Some(m as i64)
                }
            },
            None => None,
        }
    } else {
        match parse_digits(s, start, 10, 0x7FFF_FFFF_FFFF_FFFF) {
            Some(m) => Some(m as i64),
            None => None,
        }
    }
}

/// The one-character text of digit `d`.
fn digit_str(d: u64) -> (r: &'static str)
    requires
        d < 16,
    ensures
        r@ == seq![digit_char(d as nat)],
{
    if d == 0 { proof { reveal_strlit("0"); } "0" }
    else if d == 1 { proof { reveal_strlit("1"); } "1" }
    else if d == 2 { proof { reveal_strlit("2"); } "2" }
    else if d == 3 { proof { reveal_strlit("3"); } "3" }
    else if d == 4 { proof { reveal_strlit("4"); } "4" }
    else if d == 5 { proof { reveal_strlit("5"); } "5" }
    else if d == 6 { proof { reveal_strlit("6"); } "6" }
    else if d == 7 { proof { reveal_strlit("7"); } "7" }
    else if d == 8 { proof { reveal_strlit("8"); } "8" }
    else if d == 9 { proof { reveal_strlit("9"); } "9" }
    else if d == 10 { proof { reveal_strlit("A"); } "A" }
    else if d == 11 { proof { reveal_strlit("B"); } "B" }
    else if d == 12 { proof { reveal_strlit("C"); } "C" }
    else if d == 13 { proof { reveal_strlit("D"); } "D" }
    else if d == 14 { proof { reveal_strlit("E"); } "E" }
    else { proof { reveal_strlit("F"); } "F" }
}

/// Appends `n` written in base `radix` (10 or 16).
pub fn push_radix(out: &mut String, n: u128, radix: u128)
    requires
        radix == 10 || radix == 16,
    ensures
        final(out)@ == old(out)@ + radix_text(n as nat, radix as nat),
    decreases n,
{
    if n >= radix {
        push_radix(out, n / radix, radix);
    }
    let d = (n % radix) as u64;
    out.append(digit_str(d));
    proof {
        if n >= radix {
            assert(radix_text(n as nat, radix as nat) == radix_text((n / radix) as nat, radix as nat)
                + seq![digit_char((n % radix) as nat)]);
        } else {
            assert(n % radix == n) by (nonlinear_arith)
                requires
                    n < radix,
                    radix > 0,
            ;
        }
    }
}

/// Appends a signed decimal.
pub fn push_signed(out: &mut String, v: i128)
    requires
        -0x1_0000_0000_0000_0000 <= v <= 0x1_0000_0000_0000_0000,
    ensures
        final(out)@ == old(out)@ + signed_text(v as int),
{
    if v < 0 {
        out.append("-");
        push_radix(out, (-v) as u128, 10);
    } else {
        push_radix(out, v as u128, 10);
    }
}

/// The hover text of an unsigned value written with `hexadecimal_digits` digits.
pub fn unsigned_conversion(value: u64, hexadecimal_digits: usize) -> (r: String)
    ensures
        r@ == unsigned_hover(value as nat, hexadecimal_digits as nat),
{
    let mut hover = String::from_str("0x");
    push_radix(&mut hover, value as u128, 16);
    hover.append("\n0d");
    push_radix(&mut hover, value as u128, 10);
    let width: u32 = if hexadecimal_digits <= 2 {
        8
    } else if hexadecimal_digits <= 4 {
        16
    } else if hexadecimal_digits <= 8 {
        32
    } else {
        64
    };
    let sign_bit: u64 = 1u64 << (width - 1);
    proof {
        if width == 8 {
            assert(1u64 << 7u32 == 0x80) by (bit_vector);
            assert((value & 0x80) != 0 <==> (value / 0x80) % 2 == 1) by (bit_vector);
        } else if width == 16 {
            assert(1u64 << 15u32 == 0x8000) by (bit_vector);
            assert((value & 0x8000) != 0 <==> (value / 0x8000) % 2 == 1) by (bit_vector);
        } else if width == 32 {
            assert(1u64 << 31u32 == 0x8000_0000) by (bit_vector);
            assert((value & 0x8000_0000) != 0 <==> (value / 0x8000_0000) % 2 == 1) by (bit_vector);
        } else {
            assert(1u64 << 63u32 == 0x8000_0000_0000_0000) by (bit_vector);
            assert((value & 0x8000_0000_0000_0000) != 0 <==> (value / 0x8000_0000_0000_0000) % 2
                == 1) by (bit_vector);
        }
    }
    if value & sign_bit != 0 {
        let modulus: i128 = 1i128 << width;
        proof {
            if width == 8 {
                assert(1i128 << 8u32 == 0x100) by (bit_vector);
            } else if width == 16 {
                assert(1i128 << 16u32 == 0x1_0000) by (bit_vector);
            } else if width == 32 {
                assert(1i128 << 32u32 == 0x1_0000_0000) by (bit_vector);
            } else {
                assert(1i128 << 64u32 == 0x1_0000_0000_0000_0000) by (bit_vector);
            }
        }
        hover.append("\n");
        push_signed(&mut hover, value as i128 - modulus);
    }
    hover
}

/// The hover text of a signed decimal literal, or `None` if it does not parse.
pub fn signed_decimal_conversion(decimal: &[u8]) -> (r: Option<String>)
    ensures
        r matches Some(s) ==> signed_hover(decimal@) == Some(s@),
        r is None ==> signed_hover(decimal@) is None,
{
    assert(decimal@.subrange(0, decimal@.len() as int) =~= decimal@);
    let value = match parse_signed_at(decimal, 0) {
        Some(v) => v,
        None => return None,
    };
    let negative = value < 0;
    let magnitude: u128 = if negative {
        (-(value as i128)) as u128
    } else {
        value as u128
    };
    let mut hover = String::new();
    if negative {
        hover.append("-");
    }
    hover.append("0x");
    push_radix(&mut hover, magnitude, 16);
    hover.append("\n");
    if negative {
        hover.append("-");
    }
    hover.append("0d");
    push_radix(&mut hover, magnitude, 10);
    Some(hover)
}

/// Lower-cases the ASCII letters of `s`.
pub fn lowercase_bytes(s: &[u8]) -> (r: Vec<u8>)
    ensures
        r@ == lower_bytes(s@),
{
    let mut r: Vec<u8> = Vec::new();
    let mut i: usize = 0;
    while i < s.len()
        invariant
            i <= s@.len(),
            r@ =~= lower_bytes(s@.subrange(0, i as int)),
        decreases s@.len() - i,
    {
        let b = s[i];
        if 65 <= b && b <= 90 {
            r.push(b + 32);
        } else {
            r.push(b);
        }
        i = i + 1;
    }
    assert(s@.subrange(0, i as int) =~= s@);
    r
}

/// `true` when `s` begins with the bytes `p`.
pub fn starts_with_bytes(s: &[u8], p: &[u8]) -> (r: bool)
    ensures
        r == has_prefix(s@, p@),
{
    if p.len() > s.len() {
        return false;
    }
    let mut i: usize = 0;
    while i < p.len()
        invariant
            p@.len() <= s@.len(),
            i <= p@.len(),
            forall|j: int| 0 <= j < i ==> s@[j] == p@[j],
        decreases p@.len() - i,
    {
        if s[i] != p[i] {
            assert(s@.subrange(0, p@.len() as int)[i as int] != p@[i as int]);
            return false;
        }
        i = i + 1;
    }
    assert(s@.subrange(0, p@.len() as int) =~= p@);
    true
}

/// The hover text of an integer literal (see [`integer_hover_text`]).
pub fn integer_conversion(text: &str) -> (r: Option<String>)
    ensures
        r matches Some(s) ==> integer_hover_text(text.spec_bytes()) == Some(s@),
        r is None ==> integer_hover_text(text.spec_bytes()) is None,
{
    let t = text.as_bytes();
    let lower = lowercase_bytes(t);
    let l = lower.as_slice();
    let float_cast_bytes: [u8; 7] = [40, 102, 108, 111, 97, 116, 41];
    let double_cast_bytes: [u8; 8] = [40, 100, 111, 117, 98, 108, 101, 41];
    let int_cast_bytes: [u8; 5] = [40, 105, 110, 116, 41];
    assert(float_cast_bytes@ =~= float_cast());
    assert(double_cast_bytes@ =~= double_cast());
    assert(int_cast_bytes@ =~= int_cast());
    if starts_with_bytes(l, &float_cast_bytes) || starts_with_bytes(l, &double_cast_bytes) {
        return None;
    }
    if starts_with_bytes(l, &int_cast_bytes) {
        let rest = slice_range(l, 5, l.len());
        return signed_decimal_conversion(rest);
    }
    if t.len() > 0 && t[0] == 35 {
        let d = slice_range(t, 1, t.len());
        if d.len() > 0 && (d[0] == 43 || d[0] == 45) {
            return signed_decimal_conversion(d);
        }
        assert(d@.subrange(0, d@.len() as int) =~= d@);
        return match parse_unsigned_at(d, 0, 10, u64::MAX) {
            Some(v) => {
                let mut probe = String::new();
                push_radix(&mut probe, v as u128, 16);
                let n = probe.as_str().unicode_len();
                Some(unsigned_conversion(v, n))
            },
            None => None,
        };
    }
    let zero_x: [u8; 2] = [48, 120];
    let zero_upper_x: [u8; 2] = [48, 88];
    assert(zero_x@ =~= seq![48u8, 120]);
    assert(zero_upper_x@ =~= seq![48u8, 88]);
    let start: usize = if t.len() > 0 && t[0] == 36 {
        1
    } else if starts_with_bytes(t, &zero_x) || starts_with_bytes(t, &zero_upper_x) {
        2
    } else {
        0
    };
    let digits = slice_range(t, start, t.len());
    assert(digits@.subrange(0, digits@.len() as int) =~= digits@);
    assert(!has_prefix(lower_bytes(t@), float_cast()) && !has_prefix(lower_bytes(t@), double_cast()));
    assert(!has_prefix(lower_bytes(t@), int_cast()));
    assert(!(t@.len() > 0 && t@[0] == 35));
    assert(digits@ == if t@.len() > 0 && t@[0] == 36 {
            t@.subrange(1, t@.len() as int)
        } else if has_prefix(t@, seq![48u8, 120]) || has_prefix(t@, seq![48u8, 88]) {
            t@.subrange(2, t@.len() as int)
        } else {
            t@
        });
    match parse_unsigned_at(digits, 0, 16, u64::MAX) {
        Some(v) => Some(unsigned_conversion(v, digits.len())),
        None => None,
    }
}

} // verus!
