//! Numbers as text: parsing unsigned numbers in a radix the way `u64::from_str`
//! and `u64::from_str_radix` do, and printing them in decimal and in hex.

use vstd::prelude::*;

verus! {

/// Value of an ASCII digit in `radix` (10 or 16), letters in either case.
pub open spec fn digit_value(c: u8, radix: int) -> Option<int> {
    if 0x30 <= c <= 0x39 && c - 0x30 < radix {
        Some(c - 0x30)
    } else if radix == 16 && 0x61 <= c <= 0x66 {
        Some(c - 0x61 + 10)
    } else if radix == 16 && 0x41 <= c <= 0x46 {
        Some(c - 0x41 + 10)
    } else {
        None
    }
}

pub open spec fn all_digits(s: Seq<u8>, radix: int) -> bool {
    forall|i: int| 0 <= i < s.len() ==> (#[trigger] digit_value(s[i], radix)) is Some
}

/// Value of a run of digits, most significant first.
pub open spec fn digits_value(s: Seq<u8>, radix: int) -> int
    decreases s.len(),
{
    if s.len() == 0 {
        0
    } else {
        digits_value(s.drop_last(), radix) * radix + digit_value(s.last(), radix).unwrap()
    }
}

/// The digits of `s` after an optional leading `+`.
pub open spec fn unsigned_body(s: Seq<u8>) -> Seq<u8> {
    if s.len() > 0 && s[0] == 0x2B { s.drop_first() } else { s }
}

/// What `u64::from_str_radix(s, radix)` gives: an optional `+`, then at least
/// one digit, the value fitting 64 bits.
pub open spec fn parse_unsigned(s: Seq<u8>, radix: int) -> Option<u64> {
    let body = unsigned_body(s);
    if body.len() == 0 || !all_digits(body, radix) || digits_value(body, radix) > u64::MAX {
        None
    } else {
        Some(digits_value(body, radix) as u64)
    }
}

proof fn lemma_value_nonneg(s: Seq<u8>, radix: int)
    requires
        2 <= radix,
        all_digits(s, radix),
    ensures
        digits_value(s, radix) >= 0,
    decreases s.len(),
{
    if s.len() > 0 {
        let t = s.drop_last();
        assert forall|i: int| 0 <= i < t.len() implies (#[trigger] digit_value(t[i], radix)) is Some by {
            assert(t[i] == s[i]);
        }
        lemma_value_nonneg(t, radix);
        assert(digit_value(s[s.len() - 1], radix) is Some);
        assert(digits_value(t, radix) * radix >= 0) by (nonlinear_arith)
            requires
                digits_value(t, radix) >= 0,
                radix >= 2,
        ;
    }
}

/// A prefix of a run of digits is worth no more than the whole run.
proof fn lemma_value_grows(s: Seq<u8>, radix: int, i: int)
    requires
        2 <= radix,
        all_digits(s, radix),
        0 <= i <= s.len(),
    ensures
        digits_value(s.subrange(0, i), radix) <= digits_value(s, radix),
    decreases s.len(),
{
    if i == s.len() {
        assert(s.subrange(0, i) == s);
    } else {
        let t = s.drop_last();
        assert forall|j: int| 0 <= j < t.len() implies (#[trigger] digit_value(t[j], radix)) is Some by {
            assert(t[j] == s[j]);
        }
        lemma_value_grows(t, radix, i);
        lemma_value_nonneg(t, radix);
        assert(t.subrange(0, i) == s.subrange(0, i));
        assert(digit_value(s[s.len() - 1], radix) is Some);
        assert(digits_value(t, radix) * radix >= digits_value(t, radix)) by (nonlinear_arith)
            requires
                digits_value(t, radix) >= 0,
                radix >= 2,
        ;
    }
}

fn digit_exec(c: u8, radix: u64) -> (r: Option<u64>)
    requires
        radix == 10 || radix == 16,
    ensures
        r == (match digit_value(c, radix as int) {
            Some(v) => Some(v as u64),
            None => None::<u64>,
        }),
{
    if 0x30 <= c && c <= 0x39 && ((c - 0x30) as u64) < radix {
        Some((c - 0x30) as u64)
    } else if radix == 16 && 0x61 <= c && c <= 0x66 {
        Some((c - 0x61 + 10) as u64)
    } else if radix == 16 && 0x41 <= c && c <= 0x46 {
        Some((c - 0x41 + 10) as u64)
    } else {
        None
    }
}

/// Parses an unsigned number in `radix` (10 or 16) as `u64::from_str_radix`
/// does; `None` for anything it refuses.
pub fn parse_unsigned_exec(s: &[u8], radix: u64) -> (r: Option<u64>)
    requires
        radix == 10 || radix == 16,
    ensures
        r == parse_unsigned(s@, radix as int),
{
    let ghost body = unsigned_body(s@);
    let start: usize = if s.len() > 0 && s[0] == 0x2B { 1 } else { 0 };
    assert(body == s@.subrange(start as int, s@.len() as int));
    if start == s.len() {
        return None;
    }
    let mut value: u64 = 0;
    let mut i: usize = start;
    while i < s.len()
        invariant
            start <= i <= s@.len(),
            body == s@.subrange(start as int, s@.len() as int),
            body == unsigned_body(s@),
            radix == 10 || radix == 16,
            all_digits(body.subrange(0, i - start), radix as int),
            value == digits_value(body.subrange(0, i - start), radix as int),
        decreases s.len() - i,
    {
        let ghost k = (i - start) as int;
        let ghost pre = body.subrange(0, k + 1);
        assert(pre.drop_last() == body.subrange(0, k));
        assert(pre.last() == s@[i as int]);
        assert(body[k] == s@[i as int]);
        let d = match digit_exec(s[i], radix) {
            Some(d) => d,
            None => {
                assert(!all_digits(body, radix as int)) by {
                    assert(digit_value(body[k], radix as int) is None);
                }
                return None;
            },
        };
        if value > (u64::MAX - d) / radix {
            proof {
                assert(value * radix + d > u64::MAX) by (nonlinear_arith)
                    requires
                        value > (u64::MAX - d) as int / radix as int,
                        radix >= 2,
                        0 <= d < radix,
                ;
                assert(digits_value(pre, radix as int) == value * radix + d);
                if all_digits(body, radix as int) {
                    lemma_value_grows(body, radix as int, k + 1);
                }
            }
            return None;
        }
        assert(value * radix + d <= u64::MAX) by (nonlinear_arith)
            requires
                value <= (u64::MAX - d) as int / radix as int,
                radix >= 2,
                0 <= d < radix,
        ;
        value = value * radix + d;
        i = i + 1;
        assert(all_digits(body.subrange(0, i - start), radix as int)) by {
            assert forall|m: int| 0 <= m < i - start implies (#[trigger] digit_value(
                body.subrange(0, i - start)[m],
                radix as int,
            )) is Some by {
                if m < k {
                    assert(body.subrange(0, i - start)[m] == body.subrange(0, k)[m]);
                }
            }
        }
    }
    assert(body.subrange(0, body.len() as int) == body);
    Some(value)
}

/// Decimal digits of `n`, most significant first.
pub open spec fn decimal(n: nat) -> Seq<u8>
    decreases n,
{
    if n < 10 {
        seq![(0x30 + n) as u8]
    } else {
        decimal(n / 10).push((0x30 + n % 10) as u8)
    }
}

/// Upper-case hex digits of `n`, most significant first.
pub open spec fn hex(n: nat) -> Seq<u8>
    decreases n,
{
    if n < 16 {
        seq![hex_digit(n)]
    } else {
        hex(n / 16).push(hex_digit(n % 16))
    }
}

pub open spec fn hex_digit(d: nat) -> u8 {
    if d < 10 { (0x30 + d) as u8 } else { (0x41 + d - 10) as u8 }
}

/// `s` padded on the left with `c` to at least `width` bytes.
pub open spec fn pad_left(s: Seq<u8>, width: nat, c: u8) -> Seq<u8> {
    if s.len() >= width { s } else { Seq::new((width - s.len()) as nat, |i: int| c) + s }
}

/// Appends the decimal digits of `n`.
pub fn push_decimal(out: &mut Vec<u8>, n: u64)
    ensures
        final(out)@ == old(out)@ + decimal(n as nat),
    decreases n,
{
    if n < 10 {
        out.push((0x30 + n) as u8);
    } else {
        push_decimal(out, n / 10);
        out.push((0x30 + n % 10) as u8);
    }
}

/// Appends the upper-case hex digits of `n`.
pub fn push_hex(out: &mut Vec<u8>, n: u64)
    ensures
        final(out)@ == old(out)@ + hex(n as nat),
    decreases n,
{
    let d = if n < 16 { n } else { n % 16 };
    let c: u8 = if d < 10 { (0x30 + d) as u8 } else { (0x41 + d - 10) as u8 };
    if n >= 16 {
        push_hex(out, n / 16);
    }
    out.push(c);
}

/// The decimal digits of `n`.
pub fn decimal_exec(n: u64) -> (r: Vec<u8>)
    ensures
        r@ == decimal(n as nat),
{
    let mut out: Vec<u8> = Vec::new();
    push_decimal(&mut out, n);
    assert(out@ =~= decimal(n as nat));
    out
}

/// Appends `s` padded on the left with `c` to at least `width` bytes.
pub fn push_padded_left(out: &mut Vec<u8>, s: &[u8], width: usize, c: u8)
    ensures
        final(out)@ == old(out)@ + pad_left(s@, width as nat, c),
{
    let ghost start = out@;
    let mut k: usize = s.len();
    while k < width
        invariant
            s@.len() <= k <= width || (k == s@.len() && k >= width),
            out@ == start + Seq::new((k - s@.len()) as nat, |i: int| c),
        decreases width - k,
    {
        out.push(c);
        k = k + 1;
        assert(out@ =~= start + Seq::new((k - s@.len()) as nat, |i: int| c));
    }
    crate::bytes::push_all(out, s);
    assert(out@ =~= start + pad_left(s@, width as nat, c));
}

/// The decimal digits of `n` are digits, at least one, and read back as `n`.
pub proof fn lemma_decimal_reads_back(n: nat)
    ensures
        decimal(n).len() >= 1,
        forall|i: int| 0 <= i < decimal(n).len() ==> 0x30 <= #[trigger] decimal(n)[i] <= 0x39,
        all_digits(decimal(n), 10),
        digits_value(decimal(n), 10) == n,
    decreases n,
{
    if n >= 10 {
        lemma_decimal_reads_back(n / 10);
        let s = decimal(n);
        assert(s.drop_last() == decimal(n / 10));
        assert forall|i: int| 0 <= i < s.len() implies 0x30 <= #[trigger] s[i] <= 0x39 by {
            if i < s.len() - 1 {
                assert(s[i] == decimal(n / 10)[i]);
            }
        }
        assert forall|i: int| 0 <= i < s.len() implies (#[trigger] digit_value(s[i], 10)) is Some by {
            assert(0x30 <= s[i] <= 0x39);
        }
        assert(digit_value(s.last(), 10) == Some((n % 10) as int));
        vstd::arithmetic::div_mod::lemma_fundamental_div_mod(n as int, 10);
        assert(digits_value(s, 10) == digits_value(decimal(n / 10), 10) * 10 + (n % 10));
    } else {
        assert(digit_value(decimal(n)[0], 10) == Some(n as int));
        assert(decimal(n).drop_last() =~= Seq::<u8>::empty());
        assert(digits_value(decimal(n), 10) == digits_value(Seq::<u8>::empty(), 10) * 10 + n);
    }
}

/// The hex digits of `n` are digits, at least one, and read back as `n`.
pub proof fn lemma_hex_reads_back(n: nat)
    ensures
        hex(n).len() >= 1,
        forall|i: int|
            0 <= i < hex(n).len() ==> (0x30 <= #[trigger] hex(n)[i] <= 0x39 || 0x41 <= hex(n)[i]
                <= 0x46),
        all_digits(hex(n), 16),
        digits_value(hex(n), 16) == n,
    decreases n,
{
    if n >= 16 {
        lemma_hex_reads_back(n / 16);
        let s = hex(n);
        assert(s.drop_last() == hex(n / 16));
        assert forall|i: int| 0 <= i < s.len() implies (0x30 <= #[trigger] s[i] <= 0x39 || 0x41
            <= s[i] <= 0x46) by {
            if i < s.len() - 1 {
                assert(s[i] == hex(n / 16)[i]);
            }
        }
        assert forall|i: int| 0 <= i < s.len() implies (#[trigger] digit_value(s[i], 16)) is Some by {
            assert(0x30 <= s[i] <= 0x39 || 0x41 <= s[i] <= 0x46);
        }
        assert(digit_value(s.last(), 16) == Some((n % 16) as int));
        vstd::arithmetic::div_mod::lemma_fundamental_div_mod(n as int, 16);
        assert(digits_value(s, 16) == digits_value(hex(n / 16), 16) * 16 + (n % 16));
    } else {
        assert(digit_value(hex(n)[0], 16) == Some(n as int));
        assert(hex(n).drop_last() =~= Seq::<u8>::empty());
        assert(digits_value(hex(n), 16) == digits_value(Seq::<u8>::empty(), 16) * 16 + n);
    }
}

/// Leading zeros do not change what digits are worth.
pub proof fn lemma_leading_zeros(z: nat, s: Seq<u8>, radix: int)
    requires
        radix == 10 || radix == 16,
        all_digits(s, radix),
    ensures
        all_digits(Seq::new(z, |i: int| 0x30u8) + s, radix),
        digits_value(Seq::new(z, |i: int| 0x30u8) + s, radix) == digits_value(s, radix),
    decreases s.len(),
{
    let zs = Seq::new(z, |i: int| 0x30u8);
    let t = zs + s;
    assert forall|i: int| 0 <= i < t.len() implies (#[trigger] digit_value(t[i], radix)) is Some by {
        if i < z {
            assert(t[i] == 0x30u8);
        } else {
            assert(t[i] == s[i - z]);
        }
    }
    if s.len() == 0 {
        assert(t == zs);
        lemma_zeros_worth_nothing(z, radix);
    } else {
        assert forall|i: int| 0 <= i < s.drop_last().len() implies (#[trigger] digit_value(
            s.drop_last()[i],
            radix,
        )) is Some by {
            assert(s.drop_last()[i] == s[i]);
        }
        lemma_leading_zeros(z, s.drop_last(), radix);
        assert(t.drop_last() == zs + s.drop_last());
        assert(t.last() == s.last());
    }
}

proof fn lemma_zeros_worth_nothing(z: nat, radix: int)
    requires
        radix >= 2,
    ensures
        digits_value(Seq::new(z, |i: int| 0x30u8), radix) == 0,
    decreases z,
{
    if z > 0 {
        lemma_zeros_worth_nothing((z - 1) as nat, radix);
        assert(Seq::new(z, |i: int| 0x30u8).drop_last() == Seq::new((z - 1) as nat, |i: int| 0x30u8));
    }
}

/// Digits without a sign, worth no more than 64 bits hold, are read as
/// their value.
pub proof fn lemma_parse_digits(s: Seq<u8>, radix: int)
    requires
        radix == 10 || radix == 16,
        s.len() >= 1,
        s[0] != 0x2B,
        all_digits(s, radix),
        digits_value(s, radix) <= u64::MAX,
    ensures
        parse_unsigned(s, radix) == Some(digits_value(s, radix) as u64),
{
    lemma_value_nonneg(s, radix);
}

} // verus!
