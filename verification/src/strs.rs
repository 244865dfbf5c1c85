//! Splitting and matching of byte strings at ASCII delimiters.
use vstd::prelude::*;
use crate::bytes::{find_byte, is_ascii_ws, lemma_find_byte, lemma_find_byte_at, trim_start};

verus! {

/// Whether the two byte strings are equal.
pub fn eq_bytes(a: &[u8], b: &[u8]) -> (r: bool)
    ensures
        r == (a@ == b@),
{
    if a.len() != b.len() {
        return false;
    }
    let mut i: usize = 0;
    while i < a.len()
        invariant
            i <= a.len() == b.len(),
            forall|j: int| 0 <= j < i ==> a@[j] == b@[j],
        decreases a.len() - i,
    {
        if a[i] != b[i] {
            return false;
        }
        i = i + 1;
    }
    assert(a@ =~= b@);
    true
}

/// Whether `s` starts with `p`.
pub open spec fn has_prefix(s: Seq<u8>, p: Seq<u8>) -> bool {
    p.len() <= s.len() && s.subrange(0, p.len() as int) == p
}

/// Whether `s` starts with `p`.
pub fn starts_with(s: &[u8], p: &[u8]) -> (r: bool)
    ensures
        r == has_prefix(s@, p@),
{
    if p.len() > s.len() {
        return false;
    }
    eq_bytes(&s[0..p.len()], p)
}

/// `s` without a trailing `b`, if it ends with one.
pub open spec fn strip_suffix_byte(s: Seq<u8>, b: u8) -> Option<Seq<u8>> {
    if s.len() > 0 && s.last() == b {
        Some(s.drop_last())
    } else {
        None
    }
}

/// Whether `pat` occurs in `s` at `i`.
pub open spec fn matches_at(s: Seq<u8>, pat: Seq<u8>, i: int) -> bool {
    0 <= i && i + pat.len() <= s.len() && s.subrange(i, i + pat.len()) == pat
}

/// Whether `i` is the first position where `pat` occurs in `s`.
pub open spec fn first_match(s: Seq<u8>, pat: Seq<u8>, i: int) -> bool {
    matches_at(s, pat, i) && forall|j: int| 0 <= j < i ==> !matches_at(s, pat, j)
}

/// The first position where `pat` occurs in `s`.
pub open spec fn find_pat(s: Seq<u8>, pat: Seq<u8>) -> Option<int> {
    if exists|i: int| first_match(s, pat, i) {
        Some(choose|i: int| first_match(s, pat, i))
    } else {
        None
    }
}

/// `s` split around the first occurrence of `pat`.
pub open spec fn split_once_pat(s: Seq<u8>, pat: Seq<u8>) -> Option<(Seq<u8>, Seq<u8>)> {
    match find_pat(s, pat) {
        Some(i) => Some((s.subrange(0, i), s.subrange(i + pat.len(), s.len() as int))),
        None => None,
    }
}

/// Position of the first occurrence of `pat` in `s`.
pub fn find_pattern(s: &[u8], pat: &[u8]) -> (r: Option<usize>)
    ensures
        match r {
            Some(i) => find_pat(s@, pat@) == Some(i as int),
            None => find_pat(s@, pat@) is None,
        },
{
    if pat.len() > s.len() {
        proof {
            assert forall|i: int| !first_match(s@, pat@, i) by {}
        }
        return None;
    }
    let last = s.len() - pat.len();
    let mut i: usize = 0;
    loop
        invariant
            last == s.len() - pat.len(),
            pat.len() <= s.len(),
            i <= last,
            forall|j: int| 0 <= j < i ==> !matches_at(s@, pat@, j),
        ensures
            forall|j: int| 0 <= j <= last ==> !matches_at(s@, pat@, j),
        decreases last - i,
    {
        if eq_bytes(&s[i..i + pat.len()], pat) {
            proof {
                assert(first_match(s@, pat@, i as int));
                let k = choose|k: int| first_match(s@, pat@, k);
                if k < i {
                    assert(!matches_at(s@, pat@, k));
                } else if k > i {
                    assert(!matches_at(s@, pat@, i as int));
                }
            }
            return Some(i);
        }
        if i == last {
            assert(!matches_at(s@, pat@, i as int));
            break;
        }
        i = i + 1;
    }
    proof {
        assert forall|k: int| !first_match(s@, pat@, k) by {
            if first_match(s@, pat@, k) {
                if k <= last {
                    assert(!matches_at(s@, pat@, k));
                }
            }
        }
    }
    None
}

/// Position of the last occurrence of `b` in `s`.
pub open spec fn rfind_byte(s: Seq<u8>, b: u8) -> Option<int>
    decreases s.len(),
{
    if s.len() == 0 {
        None
    } else if s.last() == b {
        Some(s.len() - 1)
    } else {
        rfind_byte(s.drop_last(), b)
    }
}

/// `s` split around the last occurrence of `b`.
pub open spec fn rsplit_once_byte(s: Seq<u8>, b: u8) -> Option<(Seq<u8>, Seq<u8>)> {
    match rfind_byte(s, b) {
        Some(i) => Some((s.subrange(0, i), s.subrange(i + 1, s.len() as int))),
        None => None,
    }
}

/// Position of the last occurrence of `b` in `s`.
pub fn rfind(s: &[u8], b: u8) -> (r: Option<usize>)
    ensures
        match r {
            Some(i) => rfind_byte(s@, b) == Some(i as int),
            None => rfind_byte(s@, b) is None,
        },
{
    let mut i: usize = s.len();
    assert(s@.subrange(0, i as int) == s@);
    while i > 0
        invariant
            i <= s.len(),
            rfind_byte(s@, b) == rfind_byte(s@.subrange(0, i as int), b),
        decreases i,
    {
        let ghost pre = s@.subrange(0, i as int);
        assert(pre.drop_last() == s@.subrange(0, i - 1));
        if s[i - 1] == b {
            return Some(i - 1);
        }
        i = i - 1;
    }
    None
}

/// Position of the first ASCII whitespace byte in `s`, or its length.
pub open spec fn ws_end(s: Seq<u8>) -> int
    decreases s.len(),
{
    if s.len() == 0 || is_ascii_ws(s[0]) {
        0
    } else {
        1 + ws_end(s.drop_first())
    }
}

pub proof fn lemma_ws_end(s: Seq<u8>)
    ensures
        0 <= ws_end(s) <= s.len(),
        forall|j: int| 0 <= j < ws_end(s) ==> !is_ascii_ws(#[trigger] s[j]),
        ws_end(s) < s.len() ==> is_ascii_ws(s[ws_end(s)]),
    decreases s.len(),
{
    if !(s.len() == 0 || is_ascii_ws(s[0])) {
        lemma_ws_end(s.drop_first());
        assert forall|j: int| 0 <= j < ws_end(s) implies !is_ascii_ws(#[trigger] s[j]) by {
            if j > 0 {
                assert(s[j] == s.drop_first()[j - 1]);
            }
        }
    }
}

/// The first whitespace-separated token of `s` and what follows it.
pub open spec fn next_token(s: Seq<u8>) -> Option<(Seq<u8>, Seq<u8>)> {
    let t = trim_start(s);
    if t.len() == 0 {
        None
    } else {
        Some((t.subrange(0, ws_end(t)), t.subrange(ws_end(t), t.len() as int)))
    }
}

/// The first whitespace-separated token of `s`, as `start..end` positions.
pub fn token_range(s: &[u8], from: usize) -> (r: Option<(usize, usize)>)
    requires
        from <= s@.len(),
    ensures
        ({
            let t = s@.subrange(from as int, s@.len() as int);
            match r {
                Some((a, b)) => from <= a <= b <= s@.len() && next_token(t) == Some(
                    (s@.subrange(a as int, b as int), s@.subrange(b as int, s@.len() as int)),
                ),
                None => next_token(t) is None,
            }
        }),
{
    let n = s.len();
    let mut a: usize = from;
    while a < n && (s[a] == 0x20u8 || s[a] == 0x09u8 || s[a] == 0x0au8 || s[a] == 0x0cu8 || s[a]
        == 0x0du8)
        invariant
            from <= a <= n == s@.len(),
            forall|j: int| from <= j < a ==> is_ascii_ws(#[trigger] s@[j]),
        decreases n - a,
    {
        a = a + 1;
    }
    let ghost t = s@.subrange(from as int, n as int);
    proof {
        assert forall|j: int| 0 <= j < a - from implies is_ascii_ws(#[trigger] t[j]) by {
            assert(t[j] == s@[j + from]);
        }
        assert(a - from < t.len() ==> t[a - from] == s@[a as int]);
        crate::bytes::lemma_trim_start_at(t, a - from);
        assert(trim_start(t) == s@.subrange(a as int, n as int));
    }
    if a == n {
        return None;
    }
    let mut b: usize = a;
    while b < n && !(s[b] == 0x20u8 || s[b] == 0x09u8 || s[b] == 0x0au8 || s[b] == 0x0cu8 || s[b]
        == 0x0du8)
        invariant
            a <= b <= n == s@.len(),
            forall|j: int| a <= j < b ==> !is_ascii_ws(#[trigger] s@[j]),
        decreases n - b,
    {
        b = b + 1;
    }
    proof {
        let u = s@.subrange(a as int, n as int);
        lemma_ws_end(u);
        let w = ws_end(u);
        if w < b - a {
            assert(u[w] == s@[a + w]);
        } else if w > b - a {
            assert(u[b - a] == s@[b as int]);
            assert(!is_ascii_ws(u[b - a]));
        }
        assert(u.subrange(0, b - a) == s@.subrange(a as int, b as int));
        assert(u.subrange(b - a, u.len() as int) == s@.subrange(b as int, n as int));
    }
    Some((a, b))
}

/// All pieces of `s` between occurrences of `b`.
pub open spec fn split_all(s: Seq<u8>, b: u8) -> Seq<Seq<u8>>
    decreases s.len(),
{
    match find_byte(s, b) {
        Some(i) => if 0 <= i < s.len() {
            seq![s.subrange(0, i)] + split_all(s.subrange(i + 1, s.len() as int), b)
        } else {
            seq![s]
        },
        None => seq![s],
    }
}

/// `s` with every `from` byte replaced by `to`.
pub open spec fn replace_byte(s: Seq<u8>, from: u8, to: u8) -> Seq<u8> {
    s.map_values(|c: u8| if c == from {
        to
    } else {
        c
    })
}

/// A copy of `s` with every `from` byte replaced by `to`.
pub fn replace(s: &[u8], from: u8, to: u8) -> (r: Vec<u8>)
    ensures
        r@ == replace_byte(s@, from, to),
{
    let mut out: Vec<u8> = Vec::new();
    let mut i: usize = 0;
    while i < s.len()
        invariant
            i <= s.len(),
            out@ == replace_byte(s@.subrange(0, i as int), from, to),
        decreases s.len() - i,
    {
        let c = s[i];
        out.push(if c == from {
            to
        } else {
            c
        });
        i = i + 1;
        proof {
            assert(replace_byte(s@.subrange(0, i as int), from, to) =~= out@);
        }
    }
    proof {
        assert(s@.subrange(0, s@.len() as int) == s@);
    }
    out
}

/// A copy of `s`.
pub fn to_vec(s: &[u8]) -> (r: Vec<u8>)
    ensures
        r@ == s@,
{
    vstd::slice::slice_to_vec(s)
}

/// Appends `s` onto `out`.
pub fn push_all(out: &mut Vec<u8>, s: &[u8])
    ensures
        final(out)@ == old(out)@ + s@,
{
    let mut i: usize = 0;
    while i < s.len()
        invariant
            i <= s.len(),
            out@ == old(out)@ + s@.subrange(0, i as int),
        decreases s.len() - i,
    {
        out.push(s[i]);
        i = i + 1;
        proof {
            assert(out@ =~= old(out)@ + s@.subrange(0, i as int));
        }
    }
    proof {
        assert(s@.subrange(0, s@.len() as int) == s@);
    }
}

} // verus!
