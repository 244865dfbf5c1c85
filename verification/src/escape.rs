//! Escaping and unescaping of names, comments and property values in Tiny V2 files.
use vstd::prelude::*;
use vstd::utf8::{decode_utf8, valid_utf8};

verus! {

/// What `fast_unescape::try_unescape` makes of UTF-8 text: the unescaped text as bytes, or `None`
/// where the text holds an escape that it rejects.
pub uninterp spec fn unescaped(s: Seq<u8>) -> Option<Seq<u8>>;

/// Unescapes the UTF-8 text `s` with `fast_unescape::try_unescape`; `None` where it fails.
///
/// The group values are read in 32-bit arithmetic, which overflows on a `\u{..}` group over 32
/// bits; `requires` leaves such text out.
///
/// The contract claims that the outcome is the one `unescaped` names, that a success is UTF-8
/// (the crate hands out a `str`), and that text without a backslash comes back unchanged (the
/// crate splits at backslashes and hands such text over whole). Which escape failed is dropped.
#[verifier::external_body]
fn try_unescape(s: &[u8]) -> (r: Option<Vec<u8>>)
    requires
        valid_utf8(s@),
        escapes_fit(s@),
    ensures
        r is Some ==> unescaped(s@) == Some(r->Some_0@) && valid_utf8(r->Some_0@),
        r is None ==> unescaped(s@) is None,
        crate::bytes::lacks_byte(s@, 0x5cu8) ==> r is Some && r->Some_0@ == s@,
{
    match fast_unescape::try_unescape(std::str::from_utf8(s).unwrap_or_default()) {
        Ok(c) => Some(c.into_owned().into_bytes()),
        Err(_) => None,
    }
}

/// Whether `b` is a hexadecimal digit, either case.
pub open spec fn is_hex(b: u8) -> bool {
    (0x30u8 <= b <= 0x39u8) || (0x61u8 <= b <= 0x66u8) || (0x41u8 <= b <= 0x46u8)
}

/// The value of the hexadecimal digit `b`.
pub open spec fn hex_value(b: u8) -> nat {
    if b <= 0x39u8 {
        (b - 0x30u8) as nat
    } else if b >= 0x61u8 {
        (b - 0x61u8 + 10) as nat
    } else {
        (b - 0x41u8 + 10) as nat
    }
}

/// Whether reading the hexadecimal digits that open `h` onto `num`, one by one, as
/// `num * 16 + digit`, stays below 2^32 until the digits end or a byte that is no digit comes.
pub open spec fn hex_fits_from(num: nat, h: Seq<u8>) -> bool
    decreases h.len(),
{
    if h.len() == 0 || !is_hex(h[0]) {
        true
    } else {
        let n2 = num * 16 + hex_value(h[0]);
        n2 < 0x1_0000_0000 && hex_fits_from(n2, h.drop_first())
    }
}

/// Whether each `\u{..}` group of `s`, read from position `i` escape by escape as the
/// unescaper reads them, has a value that fits in 32 bits. Scanning stops where the unescaper
/// would stop with an error (a lone trailing backslash, an unbraced group, a short `\x`).
pub open spec fn escapes_fit_from(s: Seq<u8>, i: int) -> bool
    decreases s.len() - i,
{
    if i < 0 || i >= s.len() {
        true
    } else if s[i] != 0x5cu8 {
        escapes_fit_from(s, i + 1)
    } else if i + 1 >= s.len() {
        true
    } else if s[i + 1] == 0x75u8 {
        if i + 2 < s.len() && s[i + 2] == 0x7bu8 {
            match close_brace(s, i + 3) {
                None => true,
                Some(j) => {
                    proof {
                        lemma_close_brace(s, i + 3);
                    }
                    hex_fits_from(0, s.subrange(i + 3, j)) && escapes_fit_from(s, j + 1)
                },
            }
        } else {
            true
        }
    } else if s[i + 1] == 0x78u8 {
        if i + 4 <= s.len() {
            escapes_fit_from(s, i + 4)
        } else {
            true
        }
    } else {
        escapes_fit_from(s, i + 2)
    }
}

/// The position of the first `}` of `s` at or after `i`.
pub open spec fn close_brace(s: Seq<u8>, i: int) -> Option<int>
    decreases s.len() - i,
{
    if i < 0 || i >= s.len() {
        None
    } else if s[i] == 0x7du8 {
        Some(i)
    } else {
        close_brace(s, i + 1)
    }
}

/// A brace that `close_brace` finds lies at or after where the search began.
pub proof fn lemma_close_brace(s: Seq<u8>, i: int)
    ensures
        close_brace(s, i) matches Some(j) ==> 0 <= i <= j < s.len() && s[j] == 0x7du8,
    decreases s.len() - i,
{
    if 0 <= i < s.len() && s[i] != 0x7du8 {
        lemma_close_brace(s, i + 1);
    }
}

/// Whether every `\u{..}` group of `s` that the unescaper reads has a value that fits in 32 bits.
pub open spec fn escapes_fit(s: Seq<u8>) -> bool {
    escapes_fit_from(s, 0)
}

/// What unescaping `s` gives: text without a backslash as it is; otherwise, where every group
/// fits, what the unescaper gives, and nothing where a group does not fit.
pub open spec fn unescape_outcome(s: Seq<u8>) -> Option<Seq<u8>> {
    if crate::bytes::lacks_byte(s, 0x5cu8) {
        Some(s)
    } else if escapes_fit(s) {
        unescaped(s)
    } else {
        None
    }
}

/// Whether the hexadecimal digits that open `h[start..end]` fit in 32 bits.
fn check_hex_fits(h: &[u8], start: usize, end: usize) -> (r: bool)
    requires
        start <= end <= h@.len(),
    ensures
        r == hex_fits_from(0, h@.subrange(start as int, end as int)),
{
    let mut num: u64 = 0;
    let mut k: usize = start;
    while k < end
        invariant
            start <= k <= end <= h@.len(),
            num < 0x1_0000_0000,
            hex_fits_from(0, h@.subrange(start as int, end as int)) == hex_fits_from(
                num as nat,
                h@.subrange(k as int, end as int),
            ),
        decreases end - k,
    {
        let b = h[k];
        assert(h@.subrange(k as int, end as int)[0] == b);
        assert(h@.subrange(k as int, end as int).drop_first() == h@.subrange(k + 1, end as int));
        let d: u64 = if 0x30u8 <= b && b <= 0x39u8 {
            (b - 0x30u8) as u64
        } else if 0x61u8 <= b && b <= 0x66u8 {
            (b - 0x61u8 + 10) as u64
        } else if 0x41u8 <= b && b <= 0x46u8 {
            (b - 0x41u8 + 10) as u64
        } else {
            return true;
        };
        assert(d == hex_value(b));
        let n2: u64 = num * 16 + d;
        if n2 >= 0x1_0000_0000 {
            return false;
        }
        num = n2;
        k = k + 1;
    }
    true
}

/// Whether every `\u{..}` group of `s` that the unescaper reads fits in 32 bits.
pub fn escapes_fit_check(s: &[u8]) -> (r: bool)
    ensures
        r == escapes_fit(s@),
{
    let n = s.len();
    let mut i: usize = 0;
    while i < n
        invariant
            n == s@.len(),
            i <= n,
            escapes_fit(s@) == escapes_fit_from(s@, i as int),
        decreases n - i,
    {
        if s[i] != 0x5cu8 {
            i = i + 1;
        } else if i + 1 >= n {
            return true;
        } else if s[i + 1] == 0x75u8 {
            if i + 2 < n && s[i + 2] == 0x7bu8 {
                let mut j: usize = i + 3;
                while j < n && s[j] != 0x7du8
                    invariant
                        i + 3 <= j <= n,
                        n == s@.len(),
                        close_brace(s@, i + 3) == close_brace(s@, j as int),
                    decreases n - j,
                {
                    j = j + 1;
                }
                if j >= n {
                    return true;
                }
                if !check_hex_fits(s, i + 3, j) {
                    return false;
                }
                i = j + 1;
            } else {
                return true;
            }
        } else if s[i + 1] == 0x78u8 {
            if n - i >= 4 {
                i = i + 4;
            } else {
                return true;
            }
        } else {
            i = i + 2;
        }
    }
    true
}

/// Unescapes the UTF-8 text `s` as `unescape_outcome` says: `None` where the unescaper rejects an
/// escape or a `\u{..}` group does not fit in 32 bits.
pub fn unescape(s: &[u8]) -> (r: Option<Vec<u8>>)
    requires
        valid_utf8(s@),
    ensures
        match r {
            Some(u) => unescape_outcome(s@) == Some(u@) && valid_utf8(u@),
            None => unescape_outcome(s@) is None,
        },
{
    if !escapes_fit_check(s) {
        proof {
            if crate::bytes::lacks_byte(s@, 0x5cu8) {
                lemma_lacks_backslash_fits(s@, 0);
            }
        }
        return None;
    }
    try_unescape(s)
}

/// Text without a backslash has no group to overflow.
proof fn lemma_lacks_backslash_fits(s: Seq<u8>, i: int)
    requires
        crate::bytes::lacks_byte(s, 0x5cu8),
    ensures
        escapes_fit_from(s, i),
    decreases s.len() - i,
{
    if 0 <= i < s.len() {
        lemma_lacks_backslash_fits(s, i + 1);
    }
}

/// A hexadecimal digit, lower case.
pub open spec fn hex_digit(d: nat) -> u8 {
    if d < 10 {
        (0x30 + d) as u8
    } else {
        (0x61 + d - 10) as u8
    }
}

/// The hexadecimal digits of `n`, lower case, without leading zeros.
pub open spec fn hex(n: nat) -> Seq<u8>
    decreases n,
{
    if n < 16 {
        seq![hex_digit(n)]
    } else {
        hex(n / 16).push(hex_digit(n % 16))
    }
}

/// How `char::escape_default` writes a char: tab, carriage return, line feed, quotes and backslash
/// behind a backslash; other printable ASCII as it is; anything else as `\u{..}` in hexadecimal.
pub open spec fn escape_char(c: char) -> Seq<u8> {
    if c == '\t' {
        seq![0x5cu8, 0x74u8]
    } else if c == '\r' {
        seq![0x5cu8, 0x72u8]
    } else if c == '\n' {
        seq![0x5cu8, 0x6eu8]
    } else if c == '\'' || c == '"' || c == '\\' {
        seq![0x5cu8, c as u8]
    } else if 0x20 <= (c as u32) <= 0x7e {
        seq![c as u8]
    } else {
        seq![0x5cu8, 0x75u8, 0x7bu8] + hex(c as nat) + seq![0x7du8]
    }
}

/// Each char of `cs` escaped in turn, as `str::escape_default` writes them.
pub open spec fn escape_chars(cs: Seq<char>) -> Seq<u8>
    decreases cs.len(),
{
    if cs.len() == 0 {
        Seq::empty()
    } else {
        escape_char(cs[0]) + escape_chars(cs.drop_first())
    }
}

/// Escapes the UTF-8 text `s` with `str::escape_default`.
///
/// The contract claims what the standard library documents: each char escaped as
/// `char::escape_default` does.
#[verifier::external_body]
pub(crate) fn escape_default(s: &[u8]) -> (r: Vec<u8>)
    requires
        valid_utf8(s@),
    ensures
        r@ == escape_chars(decode_utf8(s@)),
{
    std::str::from_utf8(s).unwrap_or_default().escape_default().to_string().into_bytes()
}

} // verus!
