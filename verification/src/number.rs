//! Unsigned numbers as text: reading them in a given radix, as
//! `from_str_radix` does, and writing them as fixed-width uppercase hexadecimal.
use vstd::prelude::*;

verus! {

/// The value of `c` as a digit in base `radix`, as `char::to_digit` gives it:
/// `0`-`9`, then `a`-`z` or `A`-`Z` for ten and up, when below `radix`.
pub open spec fn digit_value(c: char, radix: nat) -> Option<nat> {
    let v = c as u32;
    let d: int = if 0x30 <= v <= 0x39 {
        v - 0x30
    } else if 0x61 <= v <= 0x7a {
        v - 0x61 + 10
    } else if 0x41 <= v <= 0x5a {
        v - 0x41 + 10
    } else {
        radix as int
    };
    if d < radix {
        Some(d as nat)
    } else {
        None
    }
}

/// True when every character of `s` is a digit in base `radix`.
pub open spec fn all_digits(s: Seq<char>, radix: nat) -> bool {
    forall|i: int| 0 <= i < s.len() ==> (#[trigger] digit_value(s[i], radix)) is Some
}

/// The number that the digits `s` denote in base `radix`, most significant first.
pub open spec fn digits_value(s: Seq<char>, radix: nat) -> nat
    decreases s.len(),
{
    if s.len() == 0 {
        0
    } else {
        digits_value(s.drop_last(), radix) * radix + match digit_value(s.last(), radix) {
            Some(d) => d,
            None => 0,
        }
    }
}

/// The digits of an unsigned number as written: an optional leading `+`, then the rest.
pub open spec fn unsigned_digits(t: Seq<char>) -> Seq<char> {
    if t.len() > 0 && t[0] == '+' {
        t.drop_first()
    } else {
        t
    }
}

/// An unsigned number in base `radix`: an optional `+` followed by one or more
/// digits, with no other character. `None` for anything else.
pub open spec fn parse_unsigned(t: Seq<char>, radix: nat) -> Option<nat> {
    let d = unsigned_digits(t);
    if d.len() > 0 && all_digits(d, radix) {
        Some(digits_value(d, radix))
    } else {
        None
    }
}

/// `parse_unsigned`, where a value above `max` does not fit: what
/// `from_str_radix` returns for an unsigned type whose largest value is `max`.
pub open spec fn parse_bounded(t: Seq<char>, radix: nat, max: nat) -> Option<nat> {
    match parse_unsigned(t, radix) {
        Some(v) => if v <= max {
            Some(v)
        } else {
            None
        },
        None => None,
    }
}

/// A longer run of digits never denotes a smaller number than its prefixes.
pub proof fn lemma_digits_value_prefix(s: Seq<char>, radix: nat, k: int)
    requires
        radix >= 1,
        0 <= k <= s.len(),
    ensures
        digits_value(s.take(k), radix) <= digits_value(s, radix),
    decreases s.len(),
{
    if k < s.len() {
        assert(s.drop_last().take(k) == s.take(k));
        lemma_digits_value_prefix(s.drop_last(), radix, k);
        let p = digits_value(s.drop_last(), radix);
        assert(p <= p * radix) by (nonlinear_arith)
            requires
                radix >= 1,
        ;
    } else {
        assert(s.take(k) == s);
    }
}

/// The value of the digit `c` in base `radix` (at most 36), if it is one.
pub fn char_digit(c: char, radix: u32) -> (r: Option<u32>)
    requires
        2 <= radix <= 36,
    ensures
        match r {
            Some(d) => digit_value(c, radix as nat) == Some(d as nat),
            None => digit_value(c, radix as nat) is None,
        },
{
    let v: u32 = c as u32;
    let d: u32 = if 0x30 <= v && v <= 0x39 {
        v - 0x30
    } else if 0x61 <= v && v <= 0x7a {
        v - 0x61 + 10
    } else if 0x41 <= v && v <= 0x5a {
        v - 0x41 + 10
    } else {
        radix
    };
    if d < radix {
        Some(d)
    } else {
        None
    }
}

/// Reads an unsigned number in base `radix` from the characters `t`, as
/// `from_str_radix` does for an unsigned type whose largest value is `max`.
pub fn parse_unsigned_chars(t: &Vec<char>, radix: u32, max: u32) -> (r: Option<u32>)
    requires
        2 <= radix <= 36,
    ensures
        match r {
            Some(v) => parse_bounded(t@, radix as nat, max as nat) == Some(v as nat),
            None => parse_bounded(t@, radix as nat, max as nat) is None,
        },
{
    let n = t.len();
    let start: usize = if n > 0 && t[0] == '+' {
        1
    } else {
        0
    };
    let ghost d = unsigned_digits(t@);
    assert(d == t@.subrange(start as int, n as int));
    if start == n {
        return None;
    }
    let mut acc: u64 = 0;
    let mut i: usize = start;
    assert(d.take(0) == Seq::<char>::empty());
    while i < n
        invariant
            n == t@.len(),
            start < n,
            start <= i <= n,
            d == t@.subrange(start as int, n as int),
            d == unsigned_digits(t@),
            2 <= radix <= 36,
            acc <= max,
            acc == digits_value(d.take(i - start), radix as nat),
            all_digits(d.take(i - start), radix as nat),
        decreases n - i,
    {
        let ghost k: int = i - start;
        assert(d[k] == t@[i as int]);
        assert(d.take(k + 1).drop_last() == d.take(k));
        assert(d.take(k + 1).last() == d[k]);
        match char_digit(t[i], radix) {
            None => {
                assert(!all_digits(d, radix as nat)) by {
                    assert(digit_value(d[k], radix as nat) is None);
                }
                assert(parse_unsigned(t@, radix as nat) is None);
                return None;
            },
            Some(dv) => {
                assert(acc * (radix as u64) + (dv as u64) <= 0xffff_ffff * 36 + 36) by (
                nonlinear_arith)
                    requires
                        acc <= 0xffff_ffff,
                        radix <= 36,
                        dv < radix,
                ;
                acc = acc * (radix as u64) + (dv as u64);
                assert(acc == digits_value(d.take(k + 1), radix as nat));
                assert(all_digits(d.take(k + 1), radix as nat)) by {
                    assert forall|j: int| 0 <= j < k + 1 implies (#[trigger] digit_value(
                        d.take(k + 1)[j],
                        radix as nat,
                    )) is Some by {
                        if j < k {
                            assert(d.take(k + 1)[j] == d.take(k)[j]);
                        }
                    }
                }
                if acc > max as u64 {
                    proof {
                        if all_digits(d, radix as nat) {
                            lemma_digits_value_prefix(d, radix as nat, k + 1);
                        }
                        assert(parse_unsigned(t@, radix as nat) is None || parse_unsigned(t@, radix as nat).unwrap() > max);
                    }
                    return None;
                }
            },
        }
        i = i + 1;
    }
    assert(d.take(n - start) == d);
    Some(acc as u32)
}

/// The uppercase hexadecimal digit for `n` (below sixteen).
pub open spec fn hex_digit(n: nat) -> char {
    if n < 10 {
        (0x30 + n) as char
    } else {
        (0x41 + n - 10) as char
    }
}

/// The last `width` hexadecimal digits of `v`, uppercase, most significant
/// first, with leading zeros: `format!("{:0width$X}", v)` for `v < 16^width`.
pub open spec fn upper_hex(v: nat, width: nat) -> Seq<char>
    decreases width,
{
    if width == 0 {
        seq![]
    } else {
        upper_hex(v / 16, (width - 1) as nat).push(hex_digit(v % 16))
    }
}

pub open spec fn pow16(n: nat) -> nat
    decreases n,
{
    if n == 0 {
        1
    } else {
        16 * pow16((n - 1) as nat)
    }
}

/// Written in hexadecimal and read back, a number that fits in `width` digits
/// is unchanged.
pub proof fn lemma_upper_hex_roundtrip(v: nat, width: nat)
    requires
        v < pow16(width),
    ensures
        upper_hex(v, width).len() == width,
        all_digits(upper_hex(v, width), 16),
        digits_value(upper_hex(v, width), 16) == v,
    decreases width,
{
    let s = upper_hex(v, width);
    if width == 0 {
    } else {
        let w1 = (width - 1) as nat;
        let pw = pow16(w1);
        assert(pow16(width) == 16 * pw);
        assert(v / 16 < pw) by (nonlinear_arith)
            requires
                v < 16 * pw,
        ;
        lemma_upper_hex_roundtrip(v / 16, w1);
        let p = upper_hex(v / 16, w1);
        let m = v % 16;
        assert(s == p.push(hex_digit(m)));
        assert(s.drop_last() == p);
        assert(digit_value(hex_digit(m), 16) == Some(m));
        assert forall|j: int| 0 <= j < s.len() implies (#[trigger] digit_value(s[j], 16)) is Some by {
            if j < p.len() {
                assert(s[j] == p[j]);
            }
        }
        vstd::arithmetic::div_mod::lemma_fundamental_div_mod(v as int, 16);
    }
}

/// Appends the last `width` uppercase hexadecimal digits of `v` to `out`, as
/// UTF-8.
pub fn push_upper_hex(out: &mut Vec<u8>, v: u32, width: usize)
    ensures
        final(out)@ == old(out)@ + vstd::utf8::encode_utf8(upper_hex(v as nat, width as nat)),
    decreases width,
{
    if width == 0 {
        assert(vstd::utf8::encode_utf8(Seq::<char>::empty()) == Seq::<u8>::empty());
        assert(old(out)@ + Seq::<u8>::empty() == old(out)@);
    } else {
        push_upper_hex(out, v / 16, width - 1);
        let m: u32 = v % 16;
        let c: char = if m < 10 {
            ((m + 0x30) as u8) as char
        } else {
            ((m - 10 + 0x41) as u8) as char
        };
        assert(c == hex_digit(m as nat));
        crate::text::push_utf8(out, c);
        proof {
            crate::text::lemma_encode_utf8_push(upper_hex((v / 16) as nat, (width - 1) as nat), c);
        }
    }
}

/// The decimal numeral for `n`: its digits, most significant first, with no
/// leading zero (`0` for zero), as `n.to_string()` writes it.
pub open spec fn decimal_text(n: nat) -> Seq<char>
    decreases n,
{
    if n < 10 {
        seq![(0x30 + n) as char]
    } else {
        decimal_text(n / 10).push((0x30 + n % 10) as char)
    }
}

/// A decimal numeral reads back, in base ten, as the number it was written for.
pub proof fn lemma_decimal_text_roundtrip(n: nat)
    ensures
        decimal_text(n).len() > 0,
        decimal_text(n)[0] != '+',
        all_digits(decimal_text(n), 10),
        digits_value(decimal_text(n), 10) == n,
        parse_unsigned(decimal_text(n), 10) == Some(n),
    decreases n,
{
    let s = decimal_text(n);
    if n < 10 {
        assert(s.drop_last() == Seq::<char>::empty());
        assert(digit_value(s[0], 10) == Some(n));
        assert(s.last() == s[0]);
        assert(digits_value(Seq::<char>::empty(), 10) == 0);
        assert(digits_value(s, 10) == 0 * 10 + n);
    } else {
        let p = decimal_text(n / 10);
        lemma_decimal_text_roundtrip(n / 10);
        let c = (0x30 + n % 10) as char;
        assert(s == p.push(c));
        assert(s.drop_last() == p);
        assert(s[0] == p[0]);
        assert(digit_value(c, 10) == Some(n % 10));
        assert forall|j: int| 0 <= j < s.len() implies (#[trigger] digit_value(s[j], 10)) is Some by {
            if j < p.len() {
                assert(s[j] == p[j]);
            }
        }
        vstd::arithmetic::div_mod::lemma_fundamental_div_mod(n as int, 10);
        assert(s.last() == c);
        assert(digits_value(s, 10) == digits_value(p, 10) * 10 + n % 10);
    }
    assert(unsigned_digits(s) == s);
}

} // verus!
