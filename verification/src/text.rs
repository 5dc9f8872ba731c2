use vstd::prelude::*;
use vstd::string::*;

verus! {

/// The ASCII code of the decimal digit `d`.
pub open spec fn digit_byte(d: nat) -> u8 {
    (48 + d % 10) as u8
}

/// The decimal digits of `n`, most significant first, without leading
/// zeros ("0" for zero).
pub open spec fn decimal(n: nat) -> Seq<u8>
    decreases n,
{
    if n < 10 {
        seq![digit_byte(n)]
    } else {
        decimal(n / 10).push(digit_byte(n % 10))
    }
}

/// The decimal digits of `n`, padded with leading zeros to `width`.
pub open spec fn decimal_padded(n: nat, width: nat) -> Seq<u8> {
    let d = decimal(n);
    if d.len() >= width {
        d
    } else {
        Seq::new((width - d.len()) as nat, |i: int| 48u8) + d
    }
}

/// Whether every byte of `s` is an ASCII decimal digit.
pub open spec fn all_digits(s: Seq<u8>) -> bool {
    forall|i: int| 0 <= i < s.len() ==> 48 <= #[trigger] s[i] <= 57
}

/// The number that a string of decimal digits denotes.
pub open spec fn digits_value(s: Seq<u8>) -> nat
    decreases s.len(),
{
    if s.len() == 0 {
        0
    } else {
        digits_value(s.drop_last()) * 10 + (s.last() - 48) as nat
    }
}

/// How `str::parse::<u64>` reads `s`: an optional `+`, then one or more
/// decimal digits denoting a number that fits in 64 bits.
pub open spec fn parse_decimal(s: Seq<u8>) -> Option<u64> {
    let d = if s.len() > 0 && s[0] == 43u8 {
        s.drop_first()
    } else {
        s
    };
    if d.len() > 0 && all_digits(d) && digits_value(d) <= u64::MAX {
        Some(digits_value(d) as u64)
    } else {
        None
    }
}

/// The characters of an ASCII byte string.
pub open spec fn ascii_chars(s: Seq<u8>) -> Seq<char> {
    s.map_values(|b: u8| b as char)
}

/// The digits of a number are digits, and denote the number.
pub proof fn lemma_decimal(n: nat)
    ensures
        all_digits(decimal(n)),
        decimal(n).len() > 0,
        digits_value(decimal(n)) == n,
        n < 10 ==> decimal(n).len() == 1,
    decreases n,
{
    if n >= 10 {
        lemma_decimal(n / 10);
        let d = decimal(n);
        assert(d.drop_last() =~= decimal(n / 10));
        assert(d.last() == digit_byte(n % 10));
        assert(digit_byte(n % 10) == 48 + n % 10);
        assert(digits_value(d) == digits_value(decimal(n / 10)) * 10 + n % 10);
        vstd::arithmetic::div_mod::lemma_fundamental_div_mod(n as int, 10);
        assert(digits_value(decimal(n / 10)) == n / 10);
        assert((n / 10) * 10 + n % 10 == n);
        assert(digits_value(d) == n);
        assert(all_digits(d)) by {
            assert forall|i: int| 0 <= i < d.len() implies 48 <= #[trigger] d[i] <= 57 by {
                if i < d.len() - 1 {
                    assert(d[i] == decimal(n / 10)[i]);
                }
            }
        }
    } else {
        assert(digit_byte(n) == 48 + n);
        assert(decimal(n).drop_last() =~= Seq::<u8>::empty());
        assert(digits_value(Seq::<u8>::empty()) == 0);
        assert(digits_value(decimal(n)) == 0 * 10 + (decimal(n).last() - 48));
    }
}

/// Leading zeros do not change the number that digits denote.
pub proof fn lemma_leading_zeros(z: nat, d: Seq<u8>)
    ensures
        digits_value(Seq::new(z, |i: int| 48u8) + d) == digits_value(d),
        all_digits(d) ==> all_digits(Seq::new(z, |i: int| 48u8) + d),
    decreases d.len(), z,
{
    let zs = Seq::new(z, |i: int| 48u8);
    if d.len() > 0 {
        lemma_leading_zeros(z, d.drop_last());
        assert((zs + d).drop_last() =~= zs + d.drop_last());
    } else if z > 0 {
        let zs1 = Seq::new((z - 1) as nat, |i: int| 48u8);
        lemma_leading_zeros((z - 1) as nat, d);
        assert((zs + d).drop_last() =~= zs1 + d);
        assert(zs + d =~= zs);
    } else {
        assert(zs + d =~= d);
    }
}

/// A number's (padded) digits read back as the number.
pub proof fn lemma_parse_decimal(n: u64, width: nat)
    ensures
        parse_decimal(decimal(n as nat)) == Some(n),
        parse_decimal(decimal_padded(n as nat, width)) == Some(n),
        all_digits(decimal_padded(n as nat, width)),
        decimal_padded(n as nat, width).len() > 0,
{
    lemma_decimal(n as nat);
    let d = decimal(n as nat);
    if d.len() < width {
        lemma_leading_zeros((width - d.len()) as nat, d);
    }
}

/// A prefix of digits denotes no more than the whole.
proof fn lemma_digits_value_prefix(s: Seq<u8>, i: int)
    requires
        0 <= i <= s.len(),
    ensures
        digits_value(s.take(i)) <= digits_value(s),
    decreases s.len(),
{
    if i < s.len() {
        assert(s.drop_last().take(i) =~= s.take(i));
        lemma_digits_value_prefix(s.drop_last(), i);
    } else {
        assert(s.take(i) =~= s);
    }
}

/// The ASCII code of a digit below ten.
fn digit(d: u64) -> (r: u8)
    requires
        d < 10,
    ensures
        r == digit_byte(d as nat),
{
    (48 + d) as u8
}

/// The decimal digits of `n`.
pub fn u64_to_decimal(n: u64) -> (r: Vec<u8>)
    ensures
        r@ == decimal(n as nat),
{
    let mut m = n;
    let mut rev: Vec<u8> = Vec::new();
    while m >= 10
        invariant
            decimal(n as nat) == decimal(m as nat) + rev@.reverse(),
        decreases m,
    {
        let d = digit(m % 10);
        proof {
            assert(rev@.push(d).reverse() =~= seq![d] + rev@.reverse());
            assert(decimal(m as nat) == decimal((m / 10) as nat).push(d));
            assert(decimal((m / 10) as nat).push(d) + rev@.reverse() =~= decimal((m / 10) as nat) + (
            seq![d] + rev@.reverse()));
        }
        rev.push(d);
        m = m / 10;
    }
    let mut out: Vec<u8> = Vec::new();
    out.push(digit(m));
    let mut i = rev.len();
    while i > 0
        invariant
            i <= rev@.len(),
            out@ == seq![digit_byte(m as nat)] + rev@.subrange(i as int, rev@.len() as int).reverse(),
            decimal(n as nat) == decimal(m as nat) + rev@.reverse(),
            decimal(m as nat) == seq![digit_byte(m as nat)],
        decreases i,
    {
        i = i - 1;
        proof {
            assert(rev@.subrange(i as int, rev@.len() as int).reverse() =~= rev@.subrange(
                i + 1,
                rev@.len() as int,
            ).reverse().push(rev@[i as int]));
        }
        out.push(rev[i]);
    }
    assert(rev@.subrange(0, rev@.len() as int) =~= rev@);
    out
}

/// The decimal digits of `n`, padded with leading zeros to `width`.
pub fn u64_to_decimal_padded(n: u64, width: usize) -> (r: Vec<u8>)
    ensures
        r@ == decimal_padded(n as nat, width as nat),
{
    let digits = u64_to_decimal(n);
    if digits.len() >= width {
        return digits;
    }
    let mut out: Vec<u8> = Vec::new();
    let pad = width - digits.len();
    let mut i: usize = 0;
    while i < pad
        invariant
            i <= pad,
            out@ =~= Seq::new(i as nat, |j: int| 48u8),
        decreases pad - i,
    {
        out.push(48u8);
        i = i + 1;
    }
    crate::format::push_bytes(&mut out, digits.as_slice());
    out
}

/// Reads `s` as `str::parse::<u64>` does: an optional `+`, then decimal
/// digits; `None` when they are missing, not digits, or too large.
pub fn parse_u64(s: &[u8]) -> (r: Option<u64>)
    ensures
        r == parse_decimal(s@),
{
    let start: usize = if s.len() > 0 && s[0] == 43u8 {
        1
    } else {
        0
    };
    let ghost d = if s@.len() > 0 && s@[0] == 43u8 {
        s@.drop_first()
    } else {
        s@
    };
    assert(d =~= s@.subrange(start as int, s@.len() as int));
    if start >= s.len() {
        return None;
    }
    let mut value: u64 = 0;
    let mut i = start;
    while i < s.len()
        invariant
            start <= i <= s@.len(),
            d == s@.subrange(start as int, s@.len() as int),
            d == (if s@.len() > 0 && s@[0] == 43u8 {
                s@.drop_first()
            } else {
                s@
            }),
            all_digits(d.take(i - start)),
            value == digits_value(d.take(i - start)),
        decreases s@.len() - i,
    {
        let b = s[i];
        let ghost k = i - start;
        assert(d[k] == b);
        assert(d.take(k + 1).drop_last() =~= d.take(k));
        if b < 48 || b > 57 {
            assert(!all_digits(d));
            return None;
        }
        assert(d.take(k + 1).last() == b);
        assert(digits_value(d.take(k + 1)) == value * 10 + (b - 48));
        let prod = value.checked_mul(10);
        let next = match prod {
            Some(p) => p.checked_add((b - 48) as u64),
            None => None,
        };
        match next {
            Some(v) => {
                value = v;
            },
            None => {
                proof {
                    lemma_digits_value_prefix(d, k + 1);
                }
                return None;
            },
        }
        i = i + 1;
    }
    assert(d.take(d.len() as int) =~= d);
    Some(value)
}

/// A string of the ASCII characters of `bytes`, which must be digits.
pub fn digits_to_string(bytes: &[u8]) -> (r: String)
    requires
        all_digits(bytes@),
    ensures
        r@ == ascii_chars(bytes@),
{
    let mut out = String::new();
    let mut i: usize = 0;
    while i < bytes.len()
        invariant
            i <= bytes@.len(),
            all_digits(bytes@),
            out@ == ascii_chars(bytes@.take(i as int)),
        decreases bytes@.len() - i,
    {
        let b = bytes[i];
        out.append(digit_str(b));
        assert(ascii_chars(bytes@.take(i + 1)) =~= ascii_chars(bytes@.take(i as int)).push(
            b as char,
        ));
        i = i + 1;
    }
    assert(bytes@.take(bytes@.len() as int) =~= bytes@);
    out
}

/// The one-character string of an ASCII digit.
fn digit_str(b: u8) -> (r: &'static str)
    requires
        48 <= b <= 57,
    ensures
        r@ == seq![b as char],
{
    proof {
        reveal_strlit("0");
        reveal_strlit("1");
        reveal_strlit("2");
        reveal_strlit("3");
        reveal_strlit("4");
        reveal_strlit("5");
        reveal_strlit("6");
        reveal_strlit("7");
        reveal_strlit("8");
        reveal_strlit("9");
    }
    if b == 48 {
        "0"
    } else if b == 49 {
        "1"
    } else if b == 50 {
        "2"
    } else if b == 51 {
        "3"
    } else if b == 52 {
        "4"
    } else if b == 53 {
        "5"
    } else if b == 54 {
        "6"
    } else if b == 55 {
        "7"
    } else if b == 56 {
        "8"
    } else {
        "9"
    }
}

} // verus!
