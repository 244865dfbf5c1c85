//! ProGuard mapping files: deserialization into mapping elements.
//!
//! A class line is `a.b.C -> x:` at indentation zero; its members follow at indentation four,
//! as `type name -> dst` for fields and `[a:b:]type name(args)[:c:d] -> dst` for methods.
//! Lines starting with `#` are passed over.
use vstd::prelude::*;
use vstd::utf8::valid_utf8;
use crate::bytes::{find_byte, lemma_find_byte, split_once};
use crate::cursor::{
    fetch, lemma_fetch_measure, measure, pos_of, reader_ok, fetch_line, LineReader, Pos,
};
use crate::element::{elements_view, Class, Element, Field, Method, SpecElement};
use crate::error::{Error, ErrorKind, SpecErrorKind};
use crate::io::{ColState, ColumnReadAdapter, ColumnReader, SliceReader};
use crate::strs::{
    eq_bytes, find_pattern, next_token, push_all, replace, replace_byte, rfind, rsplit_once_byte,
    split_all, split_once_pat, strip_suffix_byte, to_vec, token_range,
};
use crate::text::is_utf8;

verus! {

/// Indentation byte of ProGuard files.
pub const INDENT: u8 = 0x20u8;

/// Indentation count of class members.
pub const CONTENT_INDENT: usize = 4;

/// The separator ` -> `.
pub open spec fn arrow() -> Seq<u8> {
    seq![0x20u8, 0x2du8, 0x3eu8, 0x20u8]
}

/// A binary name with `.` turned into `/`.
pub open spec fn internal_name(name: Seq<u8>) -> Seq<u8> {
    replace_byte(name, 0x2eu8, 0x2fu8)
}

pub open spec fn kw_byte() -> Seq<u8> {
    seq![0x62u8, 0x79u8, 0x74u8, 0x65u8]
}

pub open spec fn kw_char() -> Seq<u8> {
    seq![0x63u8, 0x68u8, 0x61u8, 0x72u8]
}

pub open spec fn kw_double() -> Seq<u8> {
    seq![0x64u8, 0x6fu8, 0x75u8, 0x62u8, 0x6cu8, 0x65u8]
}

pub open spec fn kw_float() -> Seq<u8> {
    seq![0x66u8, 0x6cu8, 0x6fu8, 0x61u8, 0x74u8]
}

pub open spec fn kw_int() -> Seq<u8> {
    seq![0x69u8, 0x6eu8, 0x74u8]
}

pub open spec fn kw_long() -> Seq<u8> {
    seq![0x6cu8, 0x6fu8, 0x6eu8, 0x67u8]
}

pub open spec fn kw_short() -> Seq<u8> {
    seq![0x73u8, 0x68u8, 0x6fu8, 0x72u8, 0x74u8]
}

pub open spec fn kw_boolean() -> Seq<u8> {
    seq![0x62u8, 0x6fu8, 0x6fu8, 0x6cu8, 0x65u8, 0x61u8, 0x6eu8]
}

pub open spec fn kw_void() -> Seq<u8> {
    seq![0x76u8, 0x6fu8, 0x69u8, 0x64u8]
}

/// The JVM descriptor of a Java source type: `[]` suffixes become leading `[`, primitive
/// keywords their letters, anything else `L<name>;` with the name in internal form.
pub open spec fn type_desc(ty: Seq<u8>) -> Seq<u8>
    decreases ty.len(),
{
    if ty.len() >= 2 && ty[ty.len() - 2] == 0x5bu8 && ty[ty.len() - 1] == 0x5du8 {
        seq![0x5bu8] + type_desc(ty.subrange(0, ty.len() - 2))
    } else if ty == kw_byte() {
        seq![0x42u8]
    } else if ty == kw_char() {
        seq![0x43u8]
    } else if ty == kw_double() {
        seq![0x44u8]
    } else if ty == kw_float() {
        seq![0x46u8]
    } else if ty == kw_int() {
        seq![0x49u8]
    } else if ty == kw_long() {
        seq![0x4au8]
    } else if ty == kw_short() {
        seq![0x53u8]
    } else if ty == kw_boolean() {
        seq![0x5au8]
    } else if ty == kw_void() {
        seq![0x56u8]
    } else {
        seq![0x4cu8] + internal_name(ty) + seq![0x3bu8]
    }
}

/// Law: a class type (no `[]` suffix, no primitive keyword) becomes `L`, its name byte by byte
/// with each `.` turned into `/` and every other byte (`$` among them) kept, then `;`.
pub proof fn lemma_class_type_desc(ty: Seq<u8>)
    requires
        !(ty.len() >= 2 && ty[ty.len() - 2] == 0x5bu8 && ty[ty.len() - 1] == 0x5du8),
        ty != kw_byte(),
        ty != kw_char(),
        ty != kw_double(),
        ty != kw_float(),
        ty != kw_int(),
        ty != kw_long(),
        ty != kw_short(),
        ty != kw_boolean(),
        ty != kw_void(),
    ensures
        type_desc(ty).len() == ty.len() + 2,
        type_desc(ty)[0] == 0x4cu8,
        type_desc(ty)[ty.len() + 1int] == 0x3bu8,
        forall|i: int| 0 <= i < ty.len() ==> #[trigger] type_desc(ty)[i + 1] == (if ty[i] == 0x2eu8 {
            0x2fu8
        } else {
            ty[i]
        }),
{
    let d = type_desc(ty);
    assert(d == seq![0x4cu8] + internal_name(ty) + seq![0x3bu8]);
    assert forall|i: int| 0 <= i < ty.len() implies #[trigger] d[i + 1] == (if ty[i] == 0x2eu8 {
        0x2fu8
    } else {
        ty[i]
    }) by {
        assert(d[i + 1] == internal_name(ty)[i]);
    }
}

/// Law: an array type `t[]` becomes `[` before the descriptor of `t`.
pub proof fn lemma_array_type_desc(t: Seq<u8>)
    ensures
        type_desc(t + seq![0x5bu8, 0x5du8]) == seq![0x5bu8] + type_desc(t),
{
    let ty = t + seq![0x5bu8, 0x5du8];
    assert(ty.len() >= 2 && ty[ty.len() - 2] == 0x5bu8 && ty[ty.len() - 1] == 0x5du8);
    assert(ty.subrange(0, ty.len() - 2) =~= t);
}

/// Law: a name in internal form has the same length, each `.` turned into `/` and every other
/// byte kept.
pub proof fn lemma_internal_name(name: Seq<u8>)
    ensures
        internal_name(name).len() == name.len(),
        forall|i: int| 0 <= i < name.len() ==> #[trigger] internal_name(name)[i] == (if name[i] == 0x2eu8 {
            0x2fu8
        } else {
            name[i]
        }),
{
}

/// The descriptors of the non-empty argument types, one after another.
pub open spec fn args_desc(args: Seq<Seq<u8>>) -> Seq<u8>
    decreases args.len(),
{
    if args.len() == 0 {
        Seq::empty()
    } else {
        args_desc(args.drop_last()) + (if args.last().len() == 0 {
            Seq::empty()
        } else {
            type_desc(args.last())
        })
    }
}

/// Law: the descriptors of argument lists put together are those of the lists, one after the
/// other; a list of one type is that type's descriptor, or nothing for an empty type.
pub proof fn lemma_args_desc_concat(a: Seq<Seq<u8>>, b: Seq<Seq<u8>>)
    ensures
        args_desc(a + b) == args_desc(a) + args_desc(b),
    decreases b.len(),
{
    if b.len() == 0 {
        assert(a + b =~= a);
        assert(args_desc(a) + Seq::<u8>::empty() =~= args_desc(a));
    } else {
        lemma_args_desc_concat(a, b.drop_last());
        assert((a + b).drop_last() =~= a + b.drop_last());
        assert((a + b).last() == b.last());
    }
}

/// Law: one argument type gives its descriptor, an empty one nothing.
pub proof fn lemma_args_desc_one(t: Seq<u8>)
    ensures
        args_desc(seq![t]) == if t.len() == 0 {
            Seq::<u8>::empty()
        } else {
            type_desc(t)
        },
{
    let one = seq![t];
    assert(one.len() == 1 && one.last() == t);
    assert(one.drop_last() =~= Seq::<Seq<u8>>::empty());
    assert(args_desc(Seq::<Seq<u8>>::empty()) == Seq::<u8>::empty());
    assert(Seq::<u8>::empty() + type_desc(t) =~= type_desc(t));
    assert(Seq::<u8>::empty() + Seq::<u8>::empty() =~= Seq::<u8>::empty());
}

/// A class line: `src -> dst:`, giving the internal name of `src` and `dst`.
pub open spec fn class_line(line: Seq<u8>) -> Result<(Seq<u8>, Seq<u8>), SpecErrorKind> {
    if !valid_utf8(line) {
        Err(SpecErrorKind::Utf8)
    } else {
        match strip_suffix_byte(line, 0x3au8) {
            None => Err(SpecErrorKind::Msg("missing trailing colon in classline")),
            Some(s) => match split_once_pat(s, arrow()) {
                None => Err(SpecErrorKind::Msg("missing separator ' -> ' in classline")),
                Some((a, b)) => Ok((internal_name(a), internal_name(b))),
            },
        }
    }
}

/// Law: a class line `a -> b:` (a source name without spaces) gives the two names in internal
/// form: source `a` and destination `b`, each `.` turned into `/`.
pub proof fn lemma_class_line(a: Seq<u8>, b: Seq<u8>)
    requires
        forall|i: int| 0 <= i < a.len() ==> #[trigger] a[i] != 0x20u8,
        valid_utf8(a + arrow() + b + seq![0x3au8]),
    ensures
        class_line(a + arrow() + b + seq![0x3au8]) == Ok::<(Seq<u8>, Seq<u8>), SpecErrorKind>(
            (internal_name(a), internal_name(b)),
        ),
{
    let line = a + arrow() + b + seq![0x3au8];
    let s = a + arrow() + b;
    assert(strip_suffix_byte(line, 0x3au8) == Some(s)) by {
        assert(line.drop_last() =~= s);
    }
    let k = a.len() as int;
    assert(s.subrange(k, k + 4) =~= arrow());
    assert forall|j: int| 0 <= j < k implies !crate::strs::matches_at(s, arrow(), j) by {
        if crate::strs::matches_at(s, arrow(), j) {
            assert(s.subrange(j, j + 4)[0] == 0x20u8);
            assert(s[j] == a[j]);
        }
    }
    assert(crate::strs::first_match(s, arrow(), k));
    let i = choose|i: int| crate::strs::first_match(s, arrow(), i);
    assert(crate::strs::first_match(s, arrow(), i));
    if i < k {
        assert(!crate::strs::matches_at(s, arrow(), i));
    } else if i > k {
        assert(!crate::strs::matches_at(s, arrow(), k));
    }
    assert(s.subrange(0, k) =~= a);
    assert(s.subrange(k + 4, s.len() as int) =~= b);
}

/// The source type written in a member line's first token, after any `a:b:` prefix.
pub open spec fn member_type(tok: Seq<u8>) -> Seq<u8> {
    match rsplit_once_byte(tok, 0x3au8) {
        Some((_, b)) => b,
        None => tok,
    }
}

/// The descriptor and the name token of a member line's left side `type name`.
pub open spec fn member_names(left: Seq<u8>) -> Result<(Seq<u8>, Seq<u8>), SpecErrorKind> {
    match next_token(left) {
        None => Err(SpecErrorKind::MissingField("originaltype")),
        Some((ty_tok, rest)) => match next_token(rest) {
            None => Err(SpecErrorKind::MissingField("originalname")),
            Some((name_tok, _)) => Ok((type_desc(member_type(ty_tok)), name_tok)),
        },
    }
}

/// The name and argument list a member is read from: the descriptor before a `:` if it holds
/// one, else the name token.
pub open spec fn member_source(orig: Seq<u8>, name_tok: Seq<u8>) -> Seq<u8> {
    match split_once(orig, 0x3au8) {
        Some((a, _)) => a,
        None => name_tok,
    }
}

/// The member's name: the part before `(`, after its first `.`, in internal form.
pub open spec fn member_src(sa: Seq<u8>) -> Seq<u8> {
    let src0 = match split_once(sa, 0x28u8) {
        Some((a, _)) => a,
        None => sa,
    };
    internal_name(
        match split_once(src0, 0x2eu8) {
            Some((_, b)) => b,
            None => src0,
        },
    )
}

/// The member element, a method when its source holds `(`, else a field.
pub open spec fn member_element(orig: Seq<u8>, sa: Seq<u8>, dst: Seq<u8>) -> Result<SpecElement, SpecErrorKind> {
    let src = member_src(sa);
    match split_once(sa, 0x28u8) {
        None => Ok(
            SpecElement::Field {
                src,
                dst: seq![dst],
                desc: Some(orig),
                dst_desc: None,
                content: Seq::empty(),
            },
        ),
        Some((_, args)) => match strip_suffix_byte(args, 0x29u8) {
            None => Err(SpecErrorKind::Msg("unclosed parentheses")),
            Some(inner) => Ok(
                SpecElement::Method {
                    src,
                    dst: seq![dst],
                    desc: Some(
                        seq![0x28u8] + args_desc(split_all(inner, 0x2cu8)) + seq![0x29u8] + orig,
                    ),
                    dst_desc: None,
                    content: Seq::empty(),
                },
            ),
        },
    }
}

/// A member line: `type name -> dst` (a field) or `type name(args) -> dst` (a method).
pub open spec fn member_line(line: Seq<u8>) -> Result<SpecElement, SpecErrorKind> {
    if !valid_utf8(line) {
        Err(SpecErrorKind::Utf8)
    } else {
        match split_once_pat(line, arrow()) {
            None => Err(SpecErrorKind::Msg("missing separator ' -> ' in methodline or fieldline")),
            Some((left, dst)) => match member_names(left) {
                Err(e) => Err(e),
                Ok((orig, name_tok)) => member_element(orig, member_source(orig, name_tok), dst),
            },
        }
    }
}

/// The first whitespace of `s` is at `k` when none comes before and one stands there (or `s` ends).
proof fn lemma_ws_end_at(s: Seq<u8>, k: int)
    requires
        0 <= k <= s.len(),
        forall|j: int| 0 <= j < k ==> !crate::bytes::is_ascii_ws(#[trigger] s[j]),
        k < s.len() ==> crate::bytes::is_ascii_ws(s[k]),
    ensures
        crate::strs::ws_end(s) == k,
{
    crate::strs::lemma_ws_end(s);
    let e = crate::strs::ws_end(s);
    if e < k {
        assert(!crate::bytes::is_ascii_ws(s[e]));
    } else if e > k {
        assert(!crate::bytes::is_ascii_ws(s[k]));
    }
}

/// A byte that does not occur is found nowhere, from either end.
proof fn lemma_absent(s: Seq<u8>, b: u8)
    requires
        crate::bytes::lacks_byte(s, b),
    ensures
        find_byte(s, b) is None,
        crate::strs::rfind_byte(s, b) is None,
    decreases s.len(),
{
    lemma_find_byte(s, b);
    if let Some(i) = find_byte(s, b) {
        assert(s[i] != b);
    }
    if s.len() > 0 {
        assert(s.last() == s[s.len() - 1]);
        let t = s.drop_last();
        assert forall|i: int| 0 <= i < t.len() implies t[i] != b by {
            assert(t[i] == s[i]);
        }
        lemma_absent(t, b);
    }
}

/// A descriptor holds a `:` only where its type does.
proof fn lemma_type_desc_no_colon(t: Seq<u8>)
    requires
        crate::bytes::lacks_byte(t, 0x3au8),
    ensures
        crate::bytes::lacks_byte(type_desc(t), 0x3au8),
    decreases t.len(),
{
    if t.len() >= 2 && t[t.len() - 2] == 0x5bu8 && t[t.len() - 1] == 0x5du8 {
        let u = t.subrange(0, t.len() - 2);
        assert forall|i: int| 0 <= i < u.len() implies u[i] != 0x3au8 by {
            assert(u[i] == t[i]);
        }
        lemma_type_desc_no_colon(u);
        let d = type_desc(t);
        assert(d == seq![0x5bu8] + type_desc(u));
        assert forall|i: int| 0 <= i < d.len() implies d[i] != 0x3au8 by {
            if i > 0 {
                assert(d[i] == type_desc(u)[i - 1]);
            }
        }
    } else {
        let d = type_desc(t);
        if d == seq![0x4cu8] + internal_name(t) + seq![0x3bu8] {
            assert forall|i: int| 0 <= i < d.len() implies d[i] != 0x3au8 by {
                if 0 < i < d.len() - 1 {
                    assert(d[i] == internal_name(t)[i - 1]);
                    assert(t[i - 1] != 0x3au8);
                }
            }
        }
    }
}

/// The fit of a member line's name token: no whitespace, no `:`, `.`, `(` or `>`.
pub open spec fn plain_token(n: Seq<u8>) -> bool {
    forall|i: int| 0 <= i < n.len() ==> !crate::bytes::is_ascii_ws(#[trigger] n[i]) && n[i] != 0x3au8
        && n[i] != 0x2eu8 && n[i] != 0x28u8 && n[i] != 0x3eu8
}

/// The left side `t name` of a member line splits into the type's descriptor and the name token.
proof fn lemma_left_side(t: Seq<u8>, n: Seq<u8>)
    requires
        t.len() > 0,
        n.len() > 0,
        forall|i: int| 0 <= i < t.len() ==> !crate::bytes::is_ascii_ws(#[trigger] t[i]) && t[i] != 0x3au8,
        forall|i: int| 0 <= i < n.len() ==> !crate::bytes::is_ascii_ws(#[trigger] n[i]),
    ensures
        member_names(t + seq![0x20u8] + n) == Ok::<(Seq<u8>, Seq<u8>), SpecErrorKind>((type_desc(t), n)),
{
    let left = t + seq![0x20u8] + n;
    assert(crate::bytes::trim_start(left) == left) by {
        assert(left[0] == t[0]);
    }
    assert forall|j: int| 0 <= j < t.len() implies !crate::bytes::is_ascii_ws(#[trigger] left[j]) by {
        assert(left[j] == t[j]);
    }
    assert(left[t.len() as int] == 0x20u8);
    lemma_ws_end_at(left, t.len() as int);
    assert(left.subrange(0, t.len() as int) =~= t);
    let rest = left.subrange(t.len() as int, left.len() as int);
    assert(rest =~= seq![0x20u8] + n);
    assert(crate::bytes::trim_start(rest) == crate::bytes::trim_start(rest.drop_first()));
    assert(rest.drop_first() =~= n);
    assert(crate::bytes::trim_start(n) == n);
    lemma_ws_end_at(n, n.len() as int);
    assert(n.subrange(0, n.len() as int) =~= n);
    assert(crate::bytes::lacks_byte(t, 0x3au8));
    lemma_absent(t, 0x3au8);
    assert(member_type(t) == t);
}

/// The separator ` -> ` comes first right after the left side of a member line.
proof fn lemma_arrow_after(left: Seq<u8>, t: Seq<u8>, n: Seq<u8>, d: Seq<u8>)
    requires
        left == t + seq![0x20u8] + n,
        n.len() > 0,
        forall|i: int| 0 <= i < t.len() ==> #[trigger] t[i] != 0x20u8,
        forall|i: int| 0 <= i < n.len() ==> #[trigger] n[i] != 0x20u8 && n[i] != 0x3eu8,
    ensures
        split_once_pat(left + arrow() + d, arrow()) == Some((left, d)),
{
    let line = left + arrow() + d;
    let k = left.len() as int;
    assert(line.subrange(k, k + 4) =~= arrow());
    assert(crate::strs::matches_at(line, arrow(), k));
    assert forall|j: int| 0 <= j < k implies !crate::strs::matches_at(line, arrow(), j) by {
        if crate::strs::matches_at(line, arrow(), j) {
            assert(line.subrange(j, j + 4)[0] == 0x20u8);
            assert(line[j] == 0x20u8);
            if j < t.len() {
                assert(line[j] == t[j]);
            } else if j == t.len() {
                assert(line.subrange(j, j + 4)[2] == 0x3eu8);
                assert(line[j + 2] == 0x3eu8);
                if n.len() >= 2 {
                    assert(line[j + 2] == n[1]);
                } else {
                    assert(line[j + 2] == arrow()[0]);
                }
            } else {
                assert(line[j] == n[j - t.len() - 1]);
            }
        }
    }
    assert(crate::strs::first_match(line, arrow(), k));
    let i = choose|i: int| crate::strs::first_match(line, arrow(), i);
    assert(crate::strs::first_match(line, arrow(), i));
    if i < k {
        assert(!crate::strs::matches_at(line, arrow(), i));
    } else if i > k {
        assert(!crate::strs::matches_at(line, arrow(), k));
    }
    assert(line.subrange(0, k) =~= left);
    assert(line.subrange(k + 4, line.len() as int) =~= d);
}

/// Law: a field line `t n -> d` (a type and a plain name) is the field `n` of type `t`, with
/// destination `d`.
pub proof fn lemma_member_line_field(t: Seq<u8>, n: Seq<u8>, d: Seq<u8>)
    requires
        t.len() > 0,
        n.len() > 0,
        forall|i: int| 0 <= i < t.len() ==> !crate::bytes::is_ascii_ws(#[trigger] t[i]) && t[i] != 0x3au8,
        plain_token(n),
        valid_utf8(t + seq![0x20u8] + n + arrow() + d),
    ensures
        member_line(t + seq![0x20u8] + n + arrow() + d) == Ok::<SpecElement, SpecErrorKind>(
            SpecElement::Field { src: n, dst: seq![d], desc: Some(type_desc(t)), dst_desc: None, content: Seq::empty() },
        ),
{
    let left = t + seq![0x20u8] + n;
    assert forall|i: int| 0 <= i < t.len() implies #[trigger] t[i] != 0x20u8 by {
        assert(!crate::bytes::is_ascii_ws(t[i]));
    }
    assert forall|i: int| 0 <= i < n.len() implies #[trigger] n[i] != 0x20u8 && n[i] != 0x3eu8 by {
        assert(!crate::bytes::is_ascii_ws(n[i]));
    }
    lemma_arrow_after(left, t, n, d);
    lemma_left_side(t, n);
    assert(crate::bytes::lacks_byte(t, 0x3au8));
    lemma_type_desc_no_colon(t);
    lemma_absent(type_desc(t), 0x3au8);
    assert(member_source(type_desc(t), n) == n);
    assert(crate::bytes::lacks_byte(n, 0x28u8));
    assert(crate::bytes::lacks_byte(n, 0x2eu8));
    lemma_absent(n, 0x28u8);
    lemma_absent(n, 0x2eu8);
    lemma_internal_name(n);
    assert(internal_name(n) =~= n);
}

/// Law: a method line `t m(a) -> d` (a type, a plain name and an argument list) is the method
/// `m` with destination `d` and descriptor `(`, the argument types' descriptors, `)`, then that
/// of `t`.
pub proof fn lemma_member_line_method(t: Seq<u8>, m: Seq<u8>, a: Seq<u8>, d: Seq<u8>)
    requires
        t.len() > 0,
        m.len() > 0,
        forall|i: int| 0 <= i < t.len() ==> !crate::bytes::is_ascii_ws(#[trigger] t[i]) && t[i] != 0x3au8,
        plain_token(m),
        forall|i: int| 0 <= i < a.len() ==> !crate::bytes::is_ascii_ws(#[trigger] a[i]) && a[i] != 0x3au8
            && a[i] != 0x3eu8,
        valid_utf8(t + seq![0x20u8] + (m + seq![0x28u8] + a + seq![0x29u8]) + arrow() + d),
    ensures
        member_line(t + seq![0x20u8] + (m + seq![0x28u8] + a + seq![0x29u8]) + arrow() + d) == Ok::<SpecElement, SpecErrorKind>(
            SpecElement::Method {
                src: m,
                dst: seq![d],
                desc: Some(seq![0x28u8] + args_desc(split_all(a, 0x2cu8)) + seq![0x29u8] + type_desc(t)),
                dst_desc: None,
                content: Seq::empty(),
            },
        ),
{
    let n = m + seq![0x28u8] + a + seq![0x29u8];
    assert forall|i: int| 0 <= i < n.len() implies !crate::bytes::is_ascii_ws(#[trigger] n[i]) && n[i] != 0x3au8 && n[i] != 0x3eu8 by {
        if i < m.len() {
            assert(n[i] == m[i]);
        } else if i == m.len() {
        } else if i < m.len() + 1 + a.len() {
            assert(n[i] == a[i - m.len() - 1]);
        }
    }
    let left = t + seq![0x20u8] + n;
    assert forall|i: int| 0 <= i < t.len() implies #[trigger] t[i] != 0x20u8 by {
        assert(!crate::bytes::is_ascii_ws(t[i]));
    }
    assert forall|i: int| 0 <= i < n.len() implies #[trigger] n[i] != 0x20u8 && n[i] != 0x3eu8 by {
        assert(!crate::bytes::is_ascii_ws(n[i]));
    }
    lemma_arrow_after(left, t, n, d);
    lemma_left_side(t, n);
    assert(crate::bytes::lacks_byte(t, 0x3au8));
    lemma_type_desc_no_colon(t);
    lemma_absent(type_desc(t), 0x3au8);
    assert(member_source(type_desc(t), n) == n);
    // the name stops at the first `(`
    assert(crate::bytes::lacks_byte(m, 0x28u8));
    assert(n[m.len() as int] == 0x28u8);
    assert forall|j: int| 0 <= j < m.len() implies n[j] != 0x28u8 by {
        assert(n[j] == m[j]);
    }
    crate::bytes::lemma_find_byte_at(n, 0x28u8, m.len() as int);
    assert(n.subrange(0, m.len() as int) =~= m);
    let args = n.subrange(m.len() + 1int, n.len() as int);
    assert(args =~= a + seq![0x29u8]);
    assert(strip_suffix_byte(args, 0x29u8) == Some(a)) by {
        assert(args.drop_last() =~= a);
    }
    assert(crate::bytes::lacks_byte(m, 0x2eu8));
    lemma_absent(m, 0x2eu8);
    lemma_internal_name(m);
    assert(internal_name(m) =~= m);
}

/// The members of a class, read from position `p` until a line at another depth or the end.
pub open spec fn members(p: Pos) -> (Result<Seq<SpecElement>, SpecErrorKind>, Pos)
    decreases measure(p),
{
    let (ok, p1) = fetch(p, CONTENT_INDENT, INDENT, true);
    if !ok {
        (Ok(Seq::empty()), p1)
    } else {
        let p2 = Pos { st: p1.st, fresh: false };
        match p1.st.line {
            None => (Ok(Seq::empty()), p2),
            Some(l) => match member_line(l) {
                Err(e) => (Err(e), p2),
                Ok(m) => if measure(p2) < measure(p) {
                    let (r, p3) = members(p2);
                    (
                        match r {
                            Ok(ms) => Ok(seq![m] + ms),
                            Err(e) => Err(e),
                        },
                        p3,
                    )
                } else {
                    (Ok(seq![m]), p2)
                },
            },
        }
    }
}

/// The next class with its members, read from position `p`; `None` once no class line follows.
pub open spec fn class_item(p: Pos) -> (Result<Option<SpecElement>, SpecErrorKind>, Pos) {
    let (ok, p1) = fetch(p, 0, INDENT, true);
    if !ok {
        (Ok(None), p1)
    } else {
        let p2 = Pos { st: p1.st, fresh: false };
        match p1.st.line {
            None => (Ok(None), p2),
            Some(l) => match class_line(l) {
                Err(e) => (Err(e), p2),
                Ok((src, dst)) => {
                    let (r, p3) = members(p2);
                    (
                        match r {
                            Ok(ms) => Ok(
                                Some(SpecElement::Class { src, dst: seq![dst], content: ms }),
                            ),
                            Err(e) => Err(e),
                        },
                        p3,
                    )
                },
            },
        }
    }
}

/// All classes read from position `p`.
pub open spec fn classes(p: Pos) -> Result<Seq<SpecElement>, SpecErrorKind>
    decreases measure(p),
{
    let (r, p2) = class_item(p);
    match r {
        Err(e) => Err(e),
        Ok(None) => Ok(Seq::empty()),
        Ok(Some(c)) => if measure(p2) < measure(p) {
            match classes(p2) {
                Ok(cs) => Ok(seq![c] + cs),
                Err(e) => Err(e),
            }
        } else {
            Ok(seq![c])
        },
    }
}

/// The position of a fresh reader over `input`.
pub open spec fn start_pos(input: Seq<u8>) -> Pos {
    Pos { st: ColState { rest: input, line: None, indent: None, last_col: None }, fresh: false }
}

pub proof fn lemma_members_measure(p: Pos)
    ensures
        measure(members(p).1) <= measure(p),
        fetch(p, CONTENT_INDENT, INDENT, true).0 ==> measure(members(p).1) < measure(p),
    decreases measure(p),
{
    lemma_fetch_measure_le(p, CONTENT_INDENT, true);
    let (ok, p1) = fetch(p, CONTENT_INDENT, INDENT, true);
    if ok {
        let p2 = Pos { st: p1.st, fresh: false };
        if let Some(l) = p1.st.line {
            if let Ok(m) = member_line(l) {
                if measure(p2) < measure(p) {
                    lemma_members_measure(p2);
                }
            }
        }
    }
}

pub proof fn lemma_fetch_measure_le(p: Pos, k: usize, skip_hash: bool)
    ensures
        measure(fetch(p, k, INDENT, skip_hash).1) <= measure(p),
        fetch(p, k, INDENT, skip_hash).0 ==> measure(Pos {
            st: fetch(p, k, INDENT, skip_hash).1.st,
            fresh: false,
        }) < measure(p),
{
    crate::cursor::lemma_fetch_le(p, k, INDENT, skip_hash);
}

/// The descriptor of a Java source type, as `type_desc` gives it.
pub fn parse_type(ty: &[u8]) -> (r: Vec<u8>)
    ensures
        r@ == type_desc(ty@),
    decreases ty@.len(),
{
    let n = ty.len();
    if n >= 2 && ty[n - 2] == 0x5bu8 && ty[n - 1] == 0x5du8 {
        let inner = parse_type(&ty[0..n - 2]);
        let mut out: Vec<u8> = Vec::new();
        out.push(0x5bu8);
        push_all(&mut out, inner.as_slice());
        return out;
    }
    let kb: [u8; 4] = [0x62, 0x79, 0x74, 0x65];
    let kc: [u8; 4] = [0x63, 0x68, 0x61, 0x72];
    let kd: [u8; 6] = [0x64, 0x6f, 0x75, 0x62, 0x6c, 0x65];
    let kf: [u8; 5] = [0x66, 0x6c, 0x6f, 0x61, 0x74];
    let ki: [u8; 3] = [0x69, 0x6e, 0x74];
    let kl: [u8; 4] = [0x6c, 0x6f, 0x6e, 0x67];
    let ks: [u8; 5] = [0x73, 0x68, 0x6f, 0x72, 0x74];
    let kz: [u8; 7] = [0x62, 0x6f, 0x6f, 0x6c, 0x65, 0x61, 0x6e];
    let kv: [u8; 4] = [0x76, 0x6f, 0x69, 0x64];
    assert(kb@ == kw_byte());
    assert(kc@ == kw_char());
    assert(kd@ == kw_double());
    assert(kf@ == kw_float());
    assert(ki@ == kw_int());
    assert(kl@ == kw_long());
    assert(ks@ == kw_short());
    assert(kz@ == kw_boolean());
    assert(kv@ == kw_void());
    let letter: u8 = if eq_bytes(ty, &kb) {
        0x42
    } else if eq_bytes(ty, &kc) {
        0x43
    } else if eq_bytes(ty, &kd) {
        0x44
    } else if eq_bytes(ty, &kf) {
        0x46
    } else if eq_bytes(ty, &ki) {
        0x49
    } else if eq_bytes(ty, &kl) {
        0x4a
    } else if eq_bytes(ty, &ks) {
        0x53
    } else if eq_bytes(ty, &kz) {
        0x5a
    } else if eq_bytes(ty, &kv) {
        0x56
    } else {
        0
    };
    let mut out: Vec<u8> = Vec::new();
    if letter != 0 {
        out.push(letter);
    } else {
        out.push(0x4cu8);
        let name = replace(ty, 0x2eu8, 0x2fu8);
        push_all(&mut out, name.as_slice());
        out.push(0x3bu8);
    }
    out
}

/// A binary name with `.` turned into `/`.
pub fn process_src(name: &[u8]) -> (r: Vec<u8>)
    ensures
        r@ == internal_name(name@),
{
    replace(name, 0x2eu8, 0x2fu8)
}

/// Reads a class line.
pub fn parse_class_line(line: &[u8]) -> (r: Result<(Vec<u8>, Vec<u8>), ErrorKind>)
    ensures
        match r {
            Ok((a, b)) => class_line(line@) == Ok::<(Seq<u8>, Seq<u8>), SpecErrorKind>(
                (a@, b@),
            ),
            Err(e) => class_line(line@) == Err::<(Seq<u8>, Seq<u8>), SpecErrorKind>(e@),
        },
{
    if !is_utf8(line) {
        return Err(ErrorKind::Utf8);
    }
    let n = line.len();
    if n == 0 || line[n - 1] != 0x3au8 {
        return Err(ErrorKind::Msg("missing trailing colon in classline"));
    }
    let s = &line[0..n - 1];
    assert(s@ == line@.drop_last());
    let arrow_bytes: [u8; 4] = [0x20, 0x2d, 0x3e, 0x20];
    assert(arrow_bytes@ == arrow());
    match find_pattern(s, &arrow_bytes) {
        None => Err(ErrorKind::Msg("missing separator ' -> ' in classline")),
        Some(i) => {
            proof {
                reveal_first_match(s@, arrow(), i as int);
                assert(arrow().len() == 4);
            }
            let src = process_src(&s[0..i]);
            let dst = process_src(&s[i + 4..s.len()]);
            Ok((src, dst))
        },
    }
}

proof fn reveal_first_match(s: Seq<u8>, pat: Seq<u8>, i: int)
    requires
        crate::strs::find_pat(s, pat) == Some(i),
    ensures
        0 <= i && i + pat.len() <= s.len(),
{
    let k = choose|k: int| crate::strs::first_match(s, pat, k);
}

/// The descriptors of the non-empty comma-separated argument types in `args`, as
/// `args_desc(split_all(args, ','))` gives them.
fn parse_args(args: &[u8]) -> (r: Vec<u8>)
    ensures
        r@ == args_desc(split_all(args@, 0x2cu8)),
{
    let mut out: Vec<u8> = Vec::new();
    let mut start: usize = 0;
    let ghost pieces = split_all(args@, 0x2cu8);
    let ghost mut k: int = 0;
    proof {
        assert(args@.subrange(0, args@.len() as int) == args@);
        assert(pieces.subrange(0, 0) + pieces == pieces);
    }
    loop
        invariant
            start <= args@.len(),
            0 <= k <= pieces.len(),
            pieces == split_all(args@, 0x2cu8),
            pieces == pieces.subrange(0, k) + split_all(
                args@.subrange(start as int, args@.len() as int),
                0x2cu8,
            ),
            out@ == args_desc(pieces.subrange(0, k)),
        decreases args@.len() - start,
    {
        let rest = &args[start..args.len()];
        proof {
            lemma_find_byte(rest@, 0x2cu8);
        }
        match crate::io::find_first(0x2cu8, rest) {
            Some(j) => {
                let piece = &rest[0..j];
                if piece.len() > 0 {
                    let d = parse_type(piece);
                    push_all(&mut out, d.as_slice());
                }
                proof {
                    let tail = rest@.subrange(j + 1, rest@.len() as int);
                    assert(split_all(rest@, 0x2cu8) == seq![piece@] + split_all(tail, 0x2cu8));
                    assert(pieces == pieces.subrange(0, k) + seq![piece@] + split_all(tail, 0x2cu8));
                    assert(pieces[k] == piece@);
                    assert(pieces.subrange(0, k + 1) == pieces.subrange(0, k).push(piece@));
                    assert(pieces.subrange(0, k + 1).drop_last() == pieces.subrange(0, k));
                    assert(pieces == pieces.subrange(0, k + 1) + split_all(tail, 0x2cu8));
                    assert(args@.subrange((start + j + 1) as int, args@.len() as int) == tail);
                    k = k + 1;
                }
                start = start + j + 1;
            },
            None => {
                if rest.len() > 0 {
                    let d = parse_type(rest);
                    push_all(&mut out, d.as_slice());
                }
                proof {
                    assert(split_all(rest@, 0x2cu8) == seq![rest@]);
                    assert(pieces == pieces.subrange(0, k) + seq![rest@]);
                    assert(pieces.subrange(0, k + 1) == pieces);
                    assert(pieces.subrange(0, k + 1).drop_last() == pieces.subrange(0, k));
                    assert(pieces.subrange(0, k + 1).last() == rest@);
                }
                return out;
            },
        }
    }
}

/// What a member line is, once read.
pub open spec fn member_result(r: Result<Element, ErrorKind>) -> Result<SpecElement, SpecErrorKind> {
    match r {
        Ok(e) => Ok(e.view()),
        Err(k) => Err(k.view()),
    }
}

/// Reads the left side `type name` of a member line.
fn parse_member_names(left: &[u8]) -> (r: Result<(Vec<u8>, Vec<u8>), ErrorKind>)
    ensures
        match r {
            Ok((o, n)) => member_names(left@) == Ok::<(Seq<u8>, Seq<u8>), SpecErrorKind>((o@, n@)),
            Err(k) => member_names(left@) == Err::<(Seq<u8>, Seq<u8>), SpecErrorKind>(k@),
        },
{
    proof {
        assert(left@.subrange(0, left@.len() as int) == left@);
    }
    let (a, b) = match token_range(left, 0) {
        None => {
            return Err(ErrorKind::MissingField("originaltype"));
        },
        Some(range) => range,
    };
    let ty_tok = &left[a..b];
    let ty_raw: &[u8] = match rfind(ty_tok, 0x3au8) {
        Some(c) => {
            proof {
                lemma_rfind(ty_tok@, 0x3au8);
            }
            &ty_tok[c + 1..ty_tok.len()]
        },
        None => ty_tok,
    };
    let (c, d) = match token_range(left, b) {
        None => {
            return Err(ErrorKind::MissingField("originalname"));
        },
        Some(range) => range,
    };
    let orig = parse_type(ty_raw);
    Ok((orig, to_vec(&left[c..d])))
}

/// Builds the member element from its descriptor, source and destination name.
fn build_member(orig: Vec<u8>, sa: &[u8], dst: &[u8]) -> (r: Result<Element, ErrorKind>)
    ensures
        member_result(r) == member_element(orig@, sa@, dst@),
{
    proof {
        lemma_find_byte(sa@, 0x28u8);
    }
    let _sa_len = sa.len();
    let paren = crate::io::find_first(0x28u8, sa);
    let src0: &[u8] = match paren {
        Some(x) => &sa[0..x],
        None => sa,
    };
    proof {
        lemma_find_byte(src0@, 0x2eu8);
    }
    let _src0_len = src0.len();
    let src_base: &[u8] = match crate::io::find_first(0x2eu8, src0) {
        Some(x) => &src0[x + 1..src0.len()],
        None => src0,
    };
    let src = process_src(src_base);
    let dst_names: Vec<Vec<u8>> = vec![to_vec(dst)];
    proof {
        crate::element::lemma_names_one(dst_names, dst@);
        assert(src@ == member_src(sa@));
    }
    match paren {
        None => {
            let f = Field { src, dst: dst_names, desc: Some(orig), dst_desc: None, content: Vec::new() };
            Ok(Element::Field(f))
        },
        Some(x) => {
            let args = &sa[x + 1..sa.len()];
            let n = args.len();
            if n == 0 || args[n - 1] != 0x29u8 {
                return Err(ErrorKind::Msg("unclosed parentheses"));
            }
            let inner = &args[0..n - 1];
            assert(inner@ == args@.drop_last());
            let mut desc: Vec<u8> = Vec::new();
            desc.push(0x28u8);
            let ad = parse_args(inner);
            push_all(&mut desc, ad.as_slice());
            desc.push(0x29u8);
            push_all(&mut desc, orig.as_slice());
            proof {
                assert(desc@ == seq![0x28u8] + args_desc(split_all(inner@, 0x2cu8)) + seq![0x29u8]
                    + orig@);
            }
            let m = Method {
                src,
                dst: dst_names,
                desc: Some(desc),
                dst_desc: None,
                content: Vec::new(),
            };
            Ok(Element::Method(m))
        },
    }
}

/// Reads a member line.
pub fn parse_member(line: &[u8]) -> (r: Result<Element, ErrorKind>)
    ensures
        member_result(r) == member_line(line@),
{
    if !is_utf8(line) {
        return Err(ErrorKind::Utf8);
    }
    let arrow_bytes: [u8; 4] = [0x20, 0x2d, 0x3e, 0x20];
    assert(arrow_bytes@ == arrow());
    let i = match find_pattern(line, &arrow_bytes) {
        None => {
            return Err(ErrorKind::Msg("missing separator ' -> ' in methodline or fieldline"));
        },
        Some(i) => i,
    };
    proof {
        reveal_first_match(line@, arrow(), i as int);
        assert(arrow().len() == 4);
    }
    let _line_len = line.len();
    let left = &line[0..i];
    let dst = &line[i + 4..line.len()];
    let (orig, name_tok) = match parse_member_names(left) {
        Err(k) => {
            return Err(k);
        },
        Ok(v) => v,
    };
    proof {
        lemma_find_byte(orig@, 0x3au8);
    }
    let sa: &[u8] = match crate::io::find_first(0x3au8, orig.as_slice()) {
        Some(x) => &orig.as_slice()[0..x],
        None => name_tok.as_slice(),
    };
    assert(sa@ == member_source(orig@, name_tok@));
    let sa_owned = to_vec(sa);
    build_member(orig, sa_owned.as_slice(), dst)
}

proof fn lemma_rfind(s: Seq<u8>, b: u8)
    ensures
        rfind_byte_ok(s, b),
    decreases s.len(),
{
    if s.len() > 0 && s.last() != b {
        lemma_rfind(s.drop_last(), b);
    }
}

spec fn rfind_byte_ok(s: Seq<u8>, b: u8) -> bool {
    match crate::strs::rfind_byte(s, b) {
        Some(i) => 0 <= i < s.len(),
        None => true,
    }
}

/// Whether `r` stands for the outcome `spec` of reading elements, the reader at the given place.
pub open spec fn read_outcome(
    r: Result<Vec<Element>, Error>,
    spec: Result<Seq<SpecElement>, SpecErrorKind>,
) -> bool {
    match spec {
        Ok(es) => r matches Ok(v) && elements_view(v@) == es,
        Err(k) => r matches Err(e) && e.kind@ == k,
    }
}

/// `es` before the elements of `r`, if `r` succeeded.
pub open spec fn prepend(
    es: Seq<SpecElement>,
    r: Result<Seq<SpecElement>, SpecErrorKind>,
) -> Result<Seq<SpecElement>, SpecErrorKind> {
    match r {
        Ok(ms) => Ok(es + ms),
        Err(e) => Err(e),
    }
}

/// Reads the members of the current class.
fn deserialize_members<'de>(read: &mut LineReader<'de>) -> (r: Result<Vec<Element>, Error>)
    requires
        reader_ok(*old(read), INDENT, 0u8),
    ensures
        reader_ok(*final(read), INDENT, 0u8),
        read_outcome(r, members(pos_of(*old(read))).0),
        pos_of(*final(read)) == members(pos_of(*old(read))).1,
        r matches Err(e) ==> e.line == final(read).spec_line() && e.col == final(read).spec_col(),
{
    let mut out: Vec<Element> = Vec::new();
    let ghost p0 = pos_of(*read);
    proof {
        assert(elements_view(out@) == Seq::<SpecElement>::empty());
        assert(Seq::<SpecElement>::empty() + members(p0).0->Ok_0 == members(p0).0->Ok_0);
    }
    loop
        invariant
            reader_ok(*read, INDENT, 0u8),
            p0 == pos_of(*old(read)),
            members(p0).0 == prepend(elements_view(out@), members(pos_of(*read)).0),
            members(p0).1 == members(pos_of(*read)).1,
        decreases measure(pos_of(*read)),
    {
        let ghost p = pos_of(*read);
        proof {
            crate::cursor::lemma_fetch_le(p, CONTENT_INDENT, INDENT, true);
        }
        if !fetch_line(read, CONTENT_INDENT, true) {
            proof {
                assert(elements_view(out@) + Seq::<SpecElement>::empty() == elements_view(out@));
            }
            return Ok(out);
        }
        read.mark_dirty();
        let parsed = match read.this_line() {
            None => None,
            Some(l) => Some(parse_member(l.as_short())),
        };
        match parsed {
            None => {
                proof {
                    assert(elements_view(out@) + Seq::<SpecElement>::empty() == elements_view(out@));
                }
                return Ok(out);
            },
            Some(Err(k)) => {
                let e = Error::new(k).with_loc(read.line(), read.col());
                return Err(e);
            },
            Some(Ok(m)) => {
                let ghost before = out@;
                out.push(m);
                proof {
                    crate::element::lemma_elements_view_push(before, m);
                    let ms = members(pos_of(*read)).0;
                    if let Ok(rest) = ms {
                        assert(elements_view(before) + (seq![m.view()] + rest) == elements_view(out@)
                            + rest);
                    }
                }
            },
        }
    }
}

/// Whether `r` stands for the outcome `spec` of reading one element.
pub open spec fn item_outcome(
    r: Result<Option<Element>, Error>,
    spec: Result<Option<SpecElement>, SpecErrorKind>,
) -> bool {
    match spec {
        Ok(None) => r matches Ok(None),
        Ok(Some(e)) => r matches Ok(Some(v)) && v.view() == e,
        Err(k) => r matches Err(e) && e.kind@ == k,
    }
}

/// Deserializer of a ProGuard mapping file.
#[derive(Debug)]
pub struct Deserializer<'a, 'de> {
    src: &'a [u8],
    dst: &'a [u8],
    read: LineReader<'de>,
}

impl<'a, 'de> Deserializer<'a, 'de> {
    /// Where the reader stands.
    pub closed spec fn pos(&self) -> Pos {
        pos_of(self.read)
    }

    /// The reader's consistency.
    pub closed spec fn wf(&self) -> bool {
        reader_ok(self.read, INDENT, 0u8)
    }

    /// The source namespace given at creation.
    pub closed spec fn spec_src(&self) -> Seq<u8> {
        self.src@
    }

    /// The destination namespace given at creation.
    pub closed spec fn spec_dst(&self) -> Seq<u8> {
        self.dst@
    }

    /// How many lines the reader has taken.
    pub closed spec fn spec_line(&self) -> usize {
        self.read.spec_line()
    }

    /// How many columns the reader has taken on its current line.
    pub closed spec fn spec_col(&self) -> usize {
        self.read.spec_col()
    }

    /// Creates a new ProGuard deserializer over `input`, naming its namespaces `src` and `dst`.
    pub fn new(src: &'a [u8], dst: &'a [u8], input: &'de [u8]) -> (r: Self)
        requires
            input@.len() < usize::MAX,
        ensures
            r.wf(),
            r.pos() == start_pos(input@),
            r.spec_src() == src@,
            r.spec_dst() == dst@,
    {
        let read = ColumnReader::new(
            INDENT,
            0u8,
            ColumnReadAdapter::new(SliceReader::new(input)),
        );
        Self { src, dst, read }
    }

    /// Returns the source namespace of this mapping.
    pub fn src_namespace(&self) -> (r: &[u8])
        ensures
            r@ == self.spec_src(),
    {
        self.src
    }

    /// Returns the destination namespaces of this mapping.
    pub fn dst_namespaces(&self) -> (r: Vec<&[u8]>)
        ensures
            r@.len() == 1,
            r@[0]@ == self.spec_dst(),
    {
        vec![self.dst]
    }

    /// Reads the next class with its members; `None` once no class line follows.
    pub fn deserialize_any(&mut self) -> (r: Result<Option<Element>, Error>)
        requires
            old(self).wf(),
        ensures
            final(self).wf(),
            item_outcome(r, class_item(old(self).pos()).0),
            final(self).pos() == class_item(old(self).pos()).1,
            final(self).spec_src() == old(self).spec_src(),
            final(self).spec_dst() == old(self).spec_dst(),
            r matches Err(e) ==> e.line == final(self).spec_line() && e.col == final(self).spec_col(),
    {
        if !fetch_line(&mut self.read, 0, true) {
            return Ok(None);
        }
        self.read.mark_dirty();
        let cl = match self.read.this_line() {
            None => None,
            Some(l) => Some(parse_class_line(l.as_short())),
        };
        match cl {
            None => Ok(None),
            Some(Err(k)) => Err(Error::new(k).with_loc(self.read.line(), self.read.col())),
            Some(Ok((src, dst))) => match deserialize_members(&mut self.read) {
                Err(e) => Err(e.with_loc(self.read.line(), self.read.col())),
                Ok(content) => {
                    let dst_names: Vec<Vec<u8>> = vec![dst];
                    proof {
                        crate::element::lemma_names_one(dst_names, dst@);
                    }
                    Ok(Some(Element::Class(Class { src, dst: dst_names, content })))
                },
            },
        }
    }

    /// Reads every class with its members.
    pub fn deserialize_all(&mut self) -> (r: Result<Vec<Element>, Error>)
        requires
            old(self).wf(),
        ensures
            final(self).wf(),
            read_outcome(r, classes(old(self).pos())),
            r matches Err(e) ==> e.line == final(self).spec_line() && e.col == final(self).spec_col(),
    {
        let mut out: Vec<Element> = Vec::new();
        let ghost p0 = self.pos();
        proof {
            assert(elements_view(out@) == Seq::<SpecElement>::empty());
            if let Ok(cs) = classes(p0) {
                assert(Seq::<SpecElement>::empty() + cs == cs);
            }
        }
        loop
            invariant
                self.wf(),
                p0 == old(self).pos(),
                classes(p0) == prepend(elements_view(out@), classes(self.pos())),
            decreases measure(self.pos()),
        {
            let ghost p = self.pos();
            proof {
                lemma_class_item_measure(p);
            }
            match self.deserialize_any() {
                Err(e) => {
                    return Err(e);
                },
                Ok(None) => {
                    proof {
                        assert(elements_view(out@) + Seq::<SpecElement>::empty() == elements_view(
                            out@,
                        ));
                    }
                    return Ok(out);
                },
                Ok(Some(c)) => {
                    let ghost before = out@;
                    out.push(c);
                    proof {
                        crate::element::lemma_elements_view_push(before, c);
                        if let Ok(rest) = classes(self.pos()) {
                            assert(elements_view(before) + (seq![c.view()] + rest)
                                == elements_view(out@) + rest);
                        }
                    }
                },
            }
        }
    }
}

pub proof fn lemma_class_item_measure(p: Pos)
    ensures
        class_item(p).0 matches Ok(Some(_)) ==> measure(class_item(p).1) < measure(p),
{
    crate::cursor::lemma_fetch_le(p, 0, INDENT, true);
    let (ok, p1) = fetch(p, 0, INDENT, true);
    if ok {
        let p2 = Pos { st: p1.st, fresh: false };
        lemma_members_measure(p2);
    }
}

/// Reads every class of a ProGuard mapping file with its members.
pub fn from_slice(input: &[u8]) -> (r: Result<Vec<Element>, Error>)
    requires
        input@.len() < usize::MAX,
    ensures
        read_outcome(r, classes(start_pos(input@))),
{
    let empty: [u8; 0] = [];
    let mut d = Deserializer::new(&empty, &empty, input);
    d.deserialize_all()
}

} // verus!
