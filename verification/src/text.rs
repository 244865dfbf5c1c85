//! Text checks on bytes: UTF-8 validity and decimal integers.
use vstd::prelude::*;
use vstd::utf8::valid_utf8;

verus! {

/// Whether `bytes` is UTF-8.
///
/// Calls `std::str::from_utf8`, which fails exactly when the bytes are not UTF-8;
/// the contract claims that and nothing else.
#[verifier::external_body]
pub(crate) fn is_utf8(bytes: &[u8]) -> (r: bool)
    ensures
        r == valid_utf8(bytes@),
{
    std::str::from_utf8(bytes).is_ok()
}

/// The text of `bytes`, with `String::from_utf8_lossy`: UTF-8 bytes give their text as it is
/// (the documentation's promise); other bytes come out as replacement characters, which the
/// contract leaves unsaid.
#[verifier::external_body]
pub(crate) fn lossy_text(bytes: &[u8]) -> (r: String)
    ensures
        valid_utf8(bytes@) ==> r@ == vstd::utf8::decode_utf8(bytes@),
{
    String::from_utf8_lossy(bytes).into_owned()
}

/// Whether every byte is an ASCII digit.
pub open spec fn all_digits(s: Seq<u8>) -> bool {
    forall|i: int| 0 <= i < s.len() ==> 0x30u8 <= #[trigger] s[i] <= 0x39u8
}

/// The value of a string of decimal digits.
pub open spec fn digits_value(s: Seq<u8>) -> nat
    decreases s.len(),
{
    if s.len() == 0 {
        0
    } else {
        digits_value(s.drop_last()) * 10 + (s.last() - 0x30u8) as nat
    }
}

/// The digits after an optional leading `+`.
pub open spec fn unsigned_digits(s: Seq<u8>) -> Seq<u8> {
    if s.len() > 0 && s[0] == 0x2bu8 {
        s.drop_first()
    } else {
        s
    }
}

/// An unsigned decimal integer no larger than `max`, as `FromStr` for unsigned integers reads it:
/// an optional `+`, then at least one digit.
pub open spec fn parse_unsigned(s: Seq<u8>, max: nat) -> Option<nat> {
    let d = unsigned_digits(s);
    if d.len() > 0 && all_digits(d) && digits_value(d) <= max {
        Some(digits_value(d))
    } else {
        None
    }
}

/// A decimal integer in `isize` that is not negative, as `FromStr` for `isize` reads it
/// followed by a check that the value exceeds -1: `-0` counts as zero.
pub open spec fn parse_nonneg_isize(s: Seq<u8>) -> Option<nat> {
    if s.len() > 0 && s[0] == 0x2du8 {
        let d = s.drop_first();
        if d.len() > 0 && all_digits(d) && digits_value(d) == 0 {
            Some(0)
        } else {
            None
        }
    } else {
        parse_unsigned(s, isize::MAX as nat)
    }
}

proof fn lemma_digits_value_zero(d: Seq<u8>)
    requires
        all_digits(d),
    ensures
        digits_value(d) == 0 <==> forall|i: int| 0 <= i < d.len() ==> #[trigger] d[i] == 0x30u8,
    decreases d.len(),
{
    if d.len() > 0 {
        lemma_digits_value_zero(d.drop_last());
        assert forall|i: int| 0 <= i < d.len() - 1 implies #[trigger] d.drop_last()[i] == d[i] by {}
        if digits_value(d) == 0 {
            assert forall|i: int| 0 <= i < d.len() implies #[trigger] d[i] == 0x30u8 by {
                if i < d.len() - 1 {
                    assert(d.drop_last()[i] == d[i]);
                }
            }
        }
    }
}

/// Parses the digits of `d`, failing when the value exceeds `max`.
fn digits_upto(d: &[u8], start: usize, max: usize) -> (r: Option<usize>)
    requires
        start <= d@.len(),
    ensures
        ({
            let s = d@.subrange(start as int, d@.len() as int);
            match r {
                Some(v) => s.len() > 0 && all_digits(s) && digits_value(s) == v && v <= max,
                None => !(s.len() > 0 && all_digits(s) && digits_value(s) <= max),
            }
        }),
{
    let n = d.len();
    if start == n {
        return None;
    }
    let mut v: usize = 0;
    let mut i: usize = start;
    while i < n
        invariant
            start <= i <= n == d@.len(),
            start < n,
            all_digits(d@.subrange(start as int, i as int)),
            digits_value(d@.subrange(start as int, i as int)) == v,
            v <= max,
        decreases n - i,
    {
        let b = d[i];
        let ghost pre = d@.subrange(start as int, i as int);
        let ghost next = d@.subrange(start as int, i + 1);
        proof {
            assert(next.drop_last() == pre);
            assert(next.last() == b);
        }
        if b < 0x30u8 || b > 0x39u8 {
            proof {
                let s = d@.subrange(start as int, n as int);
                assert(s[i - start] == b);
            }
            return None;
        }
        let digit = (b - 0x30u8) as usize;
        if digit > max || v > (max - digit) / 10 {
            proof {
                let s = d@.subrange(start as int, n as int);
                assert(v * 10 + digit > max) by (nonlinear_arith)
                    requires
                        digit > max || v > (max - digit) / 10,
                        digit <= max ==> (max - digit) / 10 * 10 <= max - digit,
                        digit <= max ==> max - digit < ((max - digit) / 10 + 1) * 10,
                ;
                assert(s.subrange(0, (i + 1 - start) as int) == next);
                if all_digits(s) {
                    lemma_digits_prefix_bound(s, (i + 1 - start) as int);
                }
            }
            return None;
        }
        proof {
            assert(v * 10 + digit <= max) by (nonlinear_arith)
                requires
                    v <= (max - digit) / 10,
                    digit <= max,
                    (max - digit) / 10 * 10 <= max - digit,
            ;
            assert forall|j: int| 0 <= j < next.len() implies 0x30u8 <= #[trigger] next[j]
                <= 0x39u8 by {
                if j < pre.len() {
                    assert(next[j] == pre[j]);
                }
            }
        }
        v = v * 10 + digit;
        i = i + 1;
    }
    proof {
        assert(d@.subrange(start as int, i as int) == d@.subrange(start as int, n as int));
    }
    Some(v)
}

/// The value of a digit string is at least that of any of its prefixes.
proof fn lemma_digits_prefix_bound(s: Seq<u8>, k: int)
    requires
        0 <= k <= s.len(),
        all_digits(s),
    ensures
        digits_value(s.subrange(0, k)) <= digits_value(s),
    decreases s.len() - k,
{
    if k < s.len() {
        lemma_digits_prefix_bound(s, k + 1);
        let p = s.subrange(0, k + 1);
        assert(p.drop_last() == s.subrange(0, k));
        assert(0x30u8 <= p.last() <= 0x39u8) by {
            assert(p.last() == s[k]);
        }
        assert(digits_value(s.subrange(0, k)) <= digits_value(p)) by (nonlinear_arith)
            requires
                digits_value(p) == digits_value(s.subrange(0, k)) * 10 + (p.last() - 0x30u8) as nat,
        ;
    } else {
        assert(s.subrange(0, k) == s);
    }
}

/// Reads an unsigned decimal integer no larger than `max`.
pub fn parse_unsigned_upto(s: &[u8], max: usize) -> (r: Option<usize>)
    ensures
        match r {
            Some(v) => parse_unsigned(s@, max as nat) == Some(v as nat),
            None => parse_unsigned(s@, max as nat) is None,
        },
{
    let start: usize = if s.len() > 0 && s[0] == 0x2bu8 {
        1
    } else {
        0
    };
    proof {
        assert(unsigned_digits(s@) == s@.subrange(start as int, s@.len() as int));
    }
    digits_upto(s, start, max)
}

/// Reads a decimal `usize`.
pub fn parse_usize(s: &[u8]) -> (r: Option<usize>)
    ensures
        match r {
            Some(v) => parse_unsigned(s@, usize::MAX as nat) == Some(v as nat),
            None => parse_unsigned(s@, usize::MAX as nat) is None,
        },
{
    parse_unsigned_upto(s, usize::MAX)
}

/// Reads a decimal `u16`.
pub fn parse_u16(s: &[u8]) -> (r: Option<u16>)
    ensures
        match r {
            Some(v) => parse_unsigned(s@, u16::MAX as nat) == Some(v as nat),
            None => parse_unsigned(s@, u16::MAX as nat) is None,
        },
{
    match parse_unsigned_upto(s, 65535) {
        Some(v) => Some(v as u16),
        None => None,
    }
}

/// Reads a decimal `isize` that must not be negative.
pub fn parse_nonneg(s: &[u8]) -> (r: Option<usize>)
    ensures
        match r {
            Some(v) => parse_nonneg_isize(s@) == Some(v as nat),
            None => parse_nonneg_isize(s@) is None,
        },
{
    if s.len() > 0 && s[0] == 0x2du8 {
        proof {
            assert(s@.drop_first() == s@.subrange(1, s@.len() as int));
        }
        match digits_upto(s, 1, 0) {
            Some(_) => Some(0),
            None => None,
        }
    } else {
        parse_unsigned_upto(s, isize::MAX as usize)
    }
}

/// The decimal digits of `n`, as `Display` writes an unsigned integer.
pub open spec fn decimal(n: nat) -> Seq<u8>
    decreases n,
{
    if n < 10 {
        seq![(0x30 + n) as u8]
    } else {
        decimal(n / 10).push((0x30 + n % 10) as u8)
    }
}

/// The decimal text of `n` is a non-empty string of digits whose value is `n`.
pub proof fn lemma_decimal_digits(n: nat)
    ensures
        decimal(n).len() > 0,
        all_digits(decimal(n)),
        digits_value(decimal(n)) == n,
    decreases n,
{
    if n >= 10 {
        lemma_decimal_digits(n / 10);
        let d = decimal(n);
        assert(d.drop_last() == decimal(n / 10));
        assert forall|i: int| 0 <= i < d.len() implies 0x30u8 <= #[trigger] d[i] <= 0x39u8 by {
            if i < d.len() - 1 {
                assert(d[i] == decimal(n / 10)[i]);
            }
        }
        assert(d.last() == (0x30 + n % 10) as u8);
        assert(0 <= n % 10 < 10);
        assert((d.last() - 0x30u8) as nat == n % 10);
        assert((n / 10) * 10 + n % 10 == n) by (nonlinear_arith);
        assert(digits_value(d) == digits_value(d.drop_last()) * 10 + (d.last() - 0x30u8) as nat);
    } else {
        let d = decimal(n);
        assert(d.drop_last() =~= Seq::<u8>::empty());
        assert(d.last() == (0x30 + n) as u8);
        assert(digits_value(d) == digits_value(d.drop_last()) * 10 + (d.last() - 0x30u8) as nat);
    }
}

/// Law: an unsigned integer written in decimal reads back as itself, for any bound it keeps.
pub proof fn lemma_decimal_reads_back(n: nat, max: nat)
    requires
        n <= max,
    ensures
        parse_unsigned(decimal(n), max) == Some(n),
        n <= isize::MAX ==> parse_nonneg_isize(decimal(n)) == Some(n),
{
    lemma_decimal_digits(n);
    let d = decimal(n);
    assert(0x30u8 <= d[0] <= 0x39u8);
    assert(unsigned_digits(d) == d);
}

/// Bytes below 0x80 are valid UTF-8, one character each.
pub proof fn lemma_ascii_utf8(s: Seq<u8>)
    requires
        forall|i: int| 0 <= i < s.len() ==> #[trigger] s[i] < 0x80u8,
    ensures
        valid_utf8(s),
    decreases s.len(),
{
    if s.len() > 0 {
        let b = s[0];
        assert(b & 0x7fu8 <= 0x7fu8) by (bit_vector);
        let t = s.subrange(1, s.len() as int);
        assert forall|i: int| 0 <= i < t.len() implies #[trigger] t[i] < 0x80u8 by {
            assert(t[i] == s[i + 1]);
        }
        lemma_ascii_utf8(t);
        assert(vstd::utf8::pop_first_scalar(s) == t);
    }
}

/// The decimal text of `n` is ASCII.
pub proof fn lemma_decimal_ascii(n: nat)
    ensures
        forall|i: int| 0 <= i < decimal(n).len() ==> #[trigger] decimal(n)[i] < 0x80u8,
        valid_utf8(decimal(n)),
{
    lemma_decimal_digits(n);
    let d = decimal(n);
    assert forall|i: int| 0 <= i < d.len() implies #[trigger] d[i] < 0x80u8 by {
        assert(0x30u8 <= d[i] <= 0x39u8);
    }
    lemma_ascii_utf8(d);
}

/// A signed integer in decimal, as `Display` writes it: a `-` before the digits of a negative value.
pub open spec fn int_text(v: int) -> Seq<u8> {
    if v < 0 {
        seq![0x2du8] + decimal((-v) as nat)
    } else {
        decimal(v as nat)
    }
}

/// Appends the decimal digits of `n`.
pub fn push_decimal(out: &mut Vec<u8>, n: u64)
    ensures
        final(out)@ == old(out)@ + decimal(n as nat),
    decreases n,
{
    if n >= 10 {
        push_decimal(out, n / 10);
    }
    let d: u8 = (n % 10) as u8;
    out.push(0x30u8 + d);
    proof {
        if n >= 10 {
            assert(old(out)@ + decimal((n / 10) as nat) + seq![(0x30 + n % 10) as u8] =~= old(out)@
                + decimal(n as nat));
        } else {
            assert(old(out)@ + seq![(0x30 + n % 10) as u8] =~= old(out)@ + decimal(n as nat));
        }
    }
}

/// Appends a signed integer in decimal.
pub fn push_int(out: &mut Vec<u8>, v: i64)
    ensures
        final(out)@ == old(out)@ + int_text(v as int),
{
    if v < 0 {
        out.push(0x2du8);
        let m: u64 = if v == i64::MIN {
            0x8000_0000_0000_0000u64
        } else {
            (-v) as u64
        };
        push_decimal(out, m);
        assert(old(out)@ + seq![0x2du8] + decimal(m as nat) =~= old(out)@ + int_text(v as int));
    } else {
        push_decimal(out, v as u64);
    }
}

/// Why reading an unsigned integer fails, as `ParseIntError` tells it.
#[derive(Debug, Clone, Copy, PartialEq, Eq, Structural)]
pub enum IntError {
    /// Nothing to read.
    Empty,
    /// A byte that is not a digit.
    InvalidDigit,
    /// A value above the largest of the type.
    PosOverflow,
}

/// Scanning digits from the left with the value `acc` so far: the first byte that is no digit,
/// or the first digit that takes the value above `max`, decides.
pub open spec fn scan_error(d: Seq<u8>, acc: nat, max: nat) -> IntError
    decreases d.len(),
{
    if d.len() == 0 {
        IntError::InvalidDigit
    } else if !(0x30u8 <= d[0] <= 0x39u8) {
        IntError::InvalidDigit
    } else if acc * 10 + (d[0] - 0x30u8) > max {
        IntError::PosOverflow
    } else {
        scan_error(d.drop_first(), (acc * 10 + (d[0] - 0x30u8)) as nat, max)
    }
}

/// Why `s` is no unsigned integer up to `max`, as `FromStr` for unsigned integers reports it: an
/// empty text, a lone sign, then the first failing digit from the left.
pub open spec fn int_error(s: Seq<u8>, max: nat) -> IntError {
    if s.len() == 0 {
        IntError::Empty
    } else if s.len() == 1 && (s[0] == 0x2bu8 || s[0] == 0x2du8) {
        IntError::InvalidDigit
    } else {
        scan_error(unsigned_digits(s), 0, max)
    }
}

/// The message of a failed integer read; `prefixed` puts `error: ` before it.
pub open spec fn int_error_message(e: IntError, prefixed: bool) -> &'static str {
    match (e, prefixed) {
        (IntError::Empty, false) => "cannot parse integer from empty string",
        (IntError::InvalidDigit, false) => "invalid digit found in string",
        (IntError::PosOverflow, false) => "number too large to fit in target type",
        (IntError::Empty, true) => "error: cannot parse integer from empty string",
        (IntError::InvalidDigit, true) => "error: invalid digit found in string",
        (IntError::PosOverflow, true) => "error: number too large to fit in target type",
    }
}

/// The message of a failed integer read.
pub fn int_error_text(e: IntError, prefixed: bool) -> (r: &'static str)
    ensures
        r == int_error_message(e, prefixed),
{
    match (e, prefixed) {
        (IntError::Empty, false) => "cannot parse integer from empty string",
        (IntError::InvalidDigit, false) => "invalid digit found in string",
        (IntError::PosOverflow, false) => "number too large to fit in target type",
        (IntError::Empty, true) => "error: cannot parse integer from empty string",
        (IntError::InvalidDigit, true) => "error: invalid digit found in string",
        (IntError::PosOverflow, true) => "error: number too large to fit in target type",
    }
}

/// Why `s` is no unsigned integer up to `max`.
pub fn int_error_of(s: &[u8], max: usize) -> (r: IntError)
    ensures
        r == int_error(s@, max as nat),
{
    if s.len() == 0 {
        return IntError::Empty;
    }
    if s.len() == 1 && (s[0] == 0x2bu8 || s[0] == 0x2du8) {
        return IntError::InvalidDigit;
    }
    let start: usize = if s[0] == 0x2bu8 {
        1
    } else {
        0
    };
    let ghost d = unsigned_digits(s@);
    proof {
        assert(d == s@.subrange(start as int, s@.len() as int));
    }
    let mut i: usize = start;
    let mut acc: usize = 0;
    while i < s.len()
        invariant
            start <= i <= s@.len(),
            d == s@.subrange(start as int, s@.len() as int),
            int_error(s@, max as nat) == scan_error(d, 0, max as nat),
            acc <= max,
            scan_error(d, 0, max as nat) == scan_error(s@.subrange(i as int, s@.len() as int), acc as nat, max as nat),
        decreases s@.len() - i,
    {
        let ghost rest = s@.subrange(i as int, s@.len() as int);
        assert(rest[0] == s@[i as int]);
        let b = s[i];
        if b < 0x30u8 || b > 0x39u8 {
            return IntError::InvalidDigit;
        }
        let digit = (b - 0x30u8) as usize;
        if digit > max || acc > (max - digit) / 10 {
            proof {
                assert(acc * 10 + digit > max) by (nonlinear_arith)
                    requires
                        digit > max || acc > (max - digit) / 10,
                        digit <= max ==> max - digit < ((max - digit) / 10 + 1) * 10,
                ;
            }
            return IntError::PosOverflow;
        }
        proof {
            assert(acc * 10 + digit <= max) by (nonlinear_arith)
                requires
                    acc <= (max - digit) / 10,
                    digit <= max,
                    (max - digit) / 10 * 10 <= max - digit,
            ;
            assert(rest.drop_first() =~= s@.subrange(i + 1, s@.len() as int));
        }
        acc = acc * 10 + digit;
        i = i + 1;
    }
    proof {
        assert(s@.subrange(i as int, s@.len() as int) =~= Seq::<u8>::empty());
    }
    IntError::InvalidDigit
}

} // verus!
