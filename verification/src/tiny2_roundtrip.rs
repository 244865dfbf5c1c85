//! What a Tiny V2 file gives back of what the serializer wrote.
//!
//! Reading the header and the entries that the serializer writes yields the namespaces, the
//! properties and the elements, for every element sequence whose names can stand in a column.
//! Unescaping is the outside crate's: the laws assume of it only that it gives back each written
//! text that holds no backslash, as its wrapper's contract promises of such text.
use vstd::prelude::*;
use vstd::utf8::{decode_utf8, valid_utf8};
use crate::bytes::{find_byte, is_ascii_ws, lacks_byte, lemma_find_byte};
use crate::escape::{escape_char, escape_chars, unescape_outcome};
use crate::io::{line_potential, spec_read_col, ColState};
use crate::tiny2::{
    comment_text, emit, emit_all, lvt_text, name_text, name_value, names_text, opt_names_text,
    take_dsts, Scope, SEPARATOR, take_head, take_lvt, take_name, take_names, take_opt_names,
    take_usize, head_element, SpecHead, Tag,
};
use crate::error::SpecErrorKind;
use crate::element::SpecElement;
use crate::enigma::tabs;
use crate::enigma_roundtrip::{
    at, closes, first_depth, lemma_fetch_close, lemma_fetch_open, lemma_indented_line,
    lemma_leading_tabs, lemma_line_split, lemma_measure_at, lemma_measure_line, lemma_one_line_cat,
    line_state, one_line, opens,
};
use crate::cursor::{measure, Pos};
use crate::enigma::{height, heights, lemma_heights};
use crate::tiny2::{
    classify, content_scope, escaped_names_key, file_items, header, header_line, header_text, item,
    items, magic, marks_escaped, prop_line, props_from, props_text, take_prop, take_version,
    SpecHeader,
};
use crate::bytemap::{keys_sorted, lemma_lookup_insert, lemma_sorted_insert, lookup, sorted_insert};
use crate::proguard::start_pos;
use crate::bytes::{leading_count, trim_end, trim_start};
use crate::io::line_content;
use crate::text::decimal;

verus! {

/// Text that escaping leaves as it is: printable ASCII without quotes and backslash.
pub open spec fn quiet(s: Seq<u8>) -> bool {
    forall|i: int|
        0 <= i < s.len() ==> 0x20u8 <= #[trigger] s[i] <= 0x7eu8 && s[i] != 0x22u8 && s[i] != 0x27u8
            && s[i] != 0x5cu8
}

/// Quiet text is UTF-8, has no backslash, and escaping gives it back unchanged.
pub proof fn lemma_quiet_escape(s: Seq<u8>)
    requires
        quiet(s),
    ensures
        valid_utf8(s),
        lacks_byte(s, 0x5cu8),
        escape_chars(decode_utf8(s)) == s,
    decreases s.len(),
{
    if s.len() > 0 {
        let b = s[0];
        assert(b & 0x7fu8 == b) by (bit_vector)
            requires
                b < 0x80u8,
        ;
        let t = s.subrange(1, s.len() as int);
        assert forall|i: int| 0 <= i < t.len() implies 0x20u8 <= #[trigger] t[i] <= 0x7eu8 && t[i]
            != 0x22u8 && t[i] != 0x27u8 && t[i] != 0x5cu8 by {
            assert(t[i] == s[i + 1]);
        }
        lemma_quiet_escape(t);
        assert(vstd::utf8::pop_first_scalar(s) == t);
        let c = (b as u32) as char;
        assert(vstd::utf8::decode_first_scalar(s) == b as u32);
        assert(decode_utf8(s) == seq![c] + decode_utf8(t));
        assert((c as u32) == b as u32);
        assert(escape_char(c) == seq![b]);
        assert((seq![c] + decode_utf8(t)).drop_first() =~= decode_utf8(t));
        assert(escape_chars(decode_utf8(s)) =~= seq![b] + t);
        assert(seq![b] + t =~= s);
    }
}

/// A name that a column holds as it is: non-empty UTF-8 without a tab or a line feed, and
/// without whitespace at either end; where names are escaped, also quiet.
pub open spec fn name_ok(n: Seq<u8>, esc: bool) -> bool {
    &&& n.len() > 0
    &&& valid_utf8(n)
    &&& forall|i: int| 0 <= i < n.len() ==> #[trigger] n[i] != SEPARATOR && n[i] != 0x0au8
    &&& !is_ascii_ws(n[0])
    &&& !is_ascii_ws(n.last())
    &&& esc ==> quiet(n)
}

/// Every name of `d` can stand in a column.
pub open spec fn names_ok(d: Seq<Seq<u8>>, esc: bool) -> bool {
    forall|i: int| 0 <= i < d.len() ==> name_ok(#[trigger] d[i], esc)
}

/// A fit name is written as it is, read back as it is, and holds no separator or line ending.
pub proof fn lemma_name_ok(n: Seq<u8>, esc: bool)
    requires
        name_ok(n, esc),
    ensures
        name_text(n, esc) == n,
        name_value(n, esc) == Ok::<Seq<u8>, crate::error::SpecErrorKind>(n),
        lacks_byte(n, SEPARATOR),
        lacks_byte(n, 0x0au8),
        !is_ascii_ws(n[0]),
        !is_ascii_ws(n.last()),
{
    if esc {
        lemma_quiet_escape(n);
    }
    assert forall|i: int| 0 <= i < n.len() implies n[i] != SEPARATOR && n[i] != 0x0au8 by {
        assert(n[i] != SEPARATOR && n[i] != 0x0au8);
    }
}

/// The names after a separator each, told from the first one on.
pub proof fn lemma_names_text_cons(d: Seq<Seq<u8>>, esc: bool)
    requires
        d.len() > 0,
    ensures
        names_text(d, esc) == seq![SEPARATOR] + name_text(d[0], esc) + names_text(d.drop_first(), esc),
    decreases d.len(),
{
    if d.len() == 1 {
        assert(d.drop_last() =~= Seq::<Seq<u8>>::empty());
        assert(d.drop_first() =~= Seq::<Seq<u8>>::empty());
        assert(d.last() == d[0]);
    } else {
        lemma_names_text_cons(d.drop_last(), esc);
        assert(d.drop_last()[0] == d[0]);
        assert(d.drop_last().drop_first() =~= d.drop_first().drop_last());
        assert(d.drop_first().last() == d.last());
    }
}

/// Law: a first column followed by names written each after a separator splits back into that
/// column and every name, in order, empty names included, as long as no column holds a separator
/// and the line does not end in an empty column.
pub proof fn lemma_names_cols(x: Seq<u8>, d: Seq<Seq<u8>>)
    requires
        lacks_byte(x, SEPARATOR),
        forall|i: int| 0 <= i < d.len() ==> lacks_byte(#[trigger] d[i], SEPARATOR),
        d.len() == 0 ==> x.len() > 0,
        d.len() > 0 ==> d.last().len() > 0,
    ensures
        crate::cursor::split_cols(x + names_text(d, false), SEPARATOR) == seq![x] + d,
    decreases d.len(),
{
    if d.len() == 0 {
        assert(x + names_text(d, false) =~= x);
        lemma_find_byte(x, SEPARATOR);
        if let Some(i) = find_byte(x, SEPARATOR) {
            assert(x[i] != SEPARATOR);
        }
        assert(seq![x] + d =~= seq![x]);
    } else {
        lemma_names_text_cons(d, false);
        let t = d.drop_first();
        let r = d[0] + names_text(t, false);
        assert(x + names_text(d, false) =~= x + seq![SEPARATOR] + r);
        let z = x + seq![SEPARATOR] + r;
        crate::bytes::lemma_find_byte_concat(x, SEPARATOR, r);
        assert(z.subrange(0, x.len() as int) =~= x);
        assert(z.subrange(x.len() + 1int, z.len() as int) =~= r);
        assert forall|i: int| 0 <= i < t.len() implies lacks_byte(#[trigger] t[i], SEPARATOR) by {
            assert(t[i] == d[i + 1]);
        }
        if t.len() > 0 {
            assert(t.last() == d.last());
        } else {
            assert(d.last() == d[0]);
        }
        assert(lacks_byte(d[0], SEPARATOR));
        lemma_names_cols(d[0], t);
        assert(seq![x] + (seq![d[0]] + t) =~= seq![x] + d);
    }
}

/// Fit names are written as they are.
pub proof fn lemma_names_text_plain(d: Seq<Seq<u8>>, esc: bool)
    requires
        names_ok(d, esc),
    ensures
        names_text(d, esc) == names_text(d, false),
    decreases d.len(),
{
    if d.len() > 0 {
        assert(names_ok(d.drop_last(), esc)) by {
            assert forall|i: int| 0 <= i < d.drop_last().len() implies name_ok(
                #[trigger] d.drop_last()[i],
                esc,
            ) by {
                assert(d.drop_last()[i] == d[i]);
            }
        }
        lemma_names_text_plain(d.drop_last(), esc);
        lemma_name_ok(d.last(), esc);
    }
}

/// What stands of a line before the names `d`: nothing when there are none, else the first
/// name and the others after a separator each.
pub open spec fn names_line(d: Seq<Seq<u8>>) -> Option<Seq<u8>> {
    if d.len() == 0 {
        None
    } else {
        Some(d[0] + names_text(d.drop_first(), false))
    }
}

/// Reading a column that ends at a separator.
pub proof fn lemma_col_split(st: ColState, a: Seq<u8>, r: Seq<u8>)
    requires
        st.line == Some(a + seq![SEPARATOR] + r),
        lacks_byte(a, SEPARATOR),
    ensures
        spec_read_col(st, SEPARATOR) == (
            Some(a),
            ColState { line: Some(r), last_col: Some(a), ..st },
        ),
{
    let x = a + seq![SEPARATOR] + r;
    crate::bytes::lemma_find_byte_concat(a, SEPARATOR, r);
    assert(x.subrange(0, a.len() as int) =~= a);
    assert(x.subrange(a.len() as int + 1, x.len() as int) =~= r);
}

/// Reading the last column of a line.
pub proof fn lemma_col_last(st: ColState, a: Seq<u8>)
    requires
        st.line == Some(a),
        a.len() > 0,
        lacks_byte(a, SEPARATOR),
    ensures
        spec_read_col(st, SEPARATOR) == (Some(a), ColState { line: None, last_col: Some(a), ..st }),
{
    lemma_find_byte(a, SEPARATOR);
    if let Some(i) = find_byte(a, SEPARATOR) {
        assert(a[i] != SEPARATOR);
    }
}

/// Reading the names that stand on the rest of a line gives them back.
pub proof fn lemma_take_dsts(st: ColState, d: Seq<Seq<u8>>, esc: bool)
    requires
        names_ok(d, esc),
        st.line == names_line(d),
    ensures
        take_dsts(st, esc).0 == Ok::<Seq<Seq<u8>>, crate::error::SpecErrorKind>(d),
        take_dsts(st, esc).1.rest == st.rest,
        take_dsts(st, esc).1.indent == st.indent,
    decreases d.len(),
{
    if d.len() == 0 {
        assert(d =~= Seq::<Seq<u8>>::empty());
    } else {
        let t = d.drop_first();
        assert(names_ok(t, esc)) by {
            assert forall|i: int| 0 <= i < t.len() implies name_ok(#[trigger] t[i], esc) by {
                assert(t[i] == d[i + 1]);
            }
        }
        lemma_name_ok(d[0], false);
        assert(name_ok(d[0], esc));
        lemma_name_ok(d[0], esc);
        let st2 = if t.len() == 0 {
            assert(names_text(t, false) == Seq::<u8>::empty());
            assert(d[0] + names_text(t, false) =~= d[0]);
            lemma_col_last(st, d[0]);
            ColState { line: None, last_col: Some(d[0]), ..st }
        } else {
            lemma_names_text_cons(t, false);
            assert(t[0] == d[1]);
            let r = t[0] + names_text(t.drop_first(), false);
            assert(d[0] + names_text(t, false) =~= d[0] + seq![SEPARATOR] + r);
            lemma_col_split(st, d[0], r);
            ColState { line: Some(r), last_col: Some(d[0]), ..st }
        };
        assert(st2.line == names_line(t));
        assert(line_potential(st2) < line_potential(st));
        lemma_take_dsts(st2, t, esc);
        assert(seq![d[0]] + t =~= d);
    }
}

/// Optional names that columns hold: none at all, or a fit source name with fit destination names.
pub open spec fn opt_names_ok(src: Option<Seq<u8>>, dst: Option<Seq<Seq<u8>>>, esc: bool) -> bool {
    match src {
        None => dst is None,
        Some(n) => name_ok(n, esc) && (dst matches Some(d) && names_ok(d, esc)),
    }
}

/// A comment that one comment line holds: quiet, and not ending in a space.
pub open spec fn comment_ok(c: Seq<u8>) -> bool {
    &&& quiet(c)
    &&& (c.len() > 0 ==> c.last() != 0x20u8)
}

/// Whether a Tiny V2 file holds `e` faithfully in scope `scope`: classes at the top; fields,
/// methods and comments in classes; parameters, variables and comments in methods; comments
/// below the others; every name fit, descriptors present and no destination descriptors;
/// parameters and variables known by their local variable index, variables by their start
/// offset and not by an end.
pub open spec fn faithful(e: SpecElement, scope: Scope, esc: bool) -> bool
    decreases e,
{
    match e {
        SpecElement::Class { src, dst, content } => scope is Top && name_ok(src, esc) && names_ok(
            dst,
            esc,
        ) && all_faithful(content, Scope::Class, esc),
        SpecElement::Field { src, dst, desc, dst_desc, content } => scope is Class && name_ok(
            src,
            esc,
        ) && names_ok(dst, esc) && (desc matches Some(d) && name_ok(d, esc)) && dst_desc is None
            && all_faithful(content, Scope::CommentOnly, esc),
        SpecElement::Method { src, dst, desc, dst_desc, content } => scope is Class && name_ok(
            src,
            esc,
        ) && names_ok(dst, esc) && (desc matches Some(d) && name_ok(d, esc)) && dst_desc is None
            && all_faithful(content, Scope::Method, esc),
        SpecElement::MethodArg { src, dst, pos, lv_index, content } => scope is Method && pos is None
            && lv_index is Some && opt_names_ok(src, dst, esc) && all_faithful(
            content,
            Scope::CommentOnly,
            esc,
        ),
        SpecElement::MethodVar { src, dst, lv_index, op_idx, content, .. } => scope is Method
            && lv_index is Some && (op_idx matches Some(o) && o.1 is None) && opt_names_ok(src, dst, esc)
            && all_faithful(content, Scope::CommentOnly, esc),
        SpecElement::Comment(c) => !(scope is Top) && comment_ok(c),
    }
}

/// Whether a Tiny V2 file holds every element of `es` faithfully in scope `scope`.
pub open spec fn all_faithful(es: Seq<SpecElement>, scope: Scope, esc: bool) -> bool
    decreases es,
{
    es.len() == 0 || (faithful(es[0], scope, esc) && all_faithful(
        es.subrange(1, es.len() as int),
        scope,
        esc,
    ))
}

/// The line of an element as written, without indentation and line ending.
pub open spec fn written(e: SpecElement) -> Seq<u8> {
    match e {
        SpecElement::Class { src, dst, .. } => seq![0x63u8, SEPARATOR] + src + names_text(dst, false),
        SpecElement::Field { src, dst, desc, .. } => seq![0x66u8, SEPARATOR] + desc.unwrap() + seq![
            SEPARATOR,
        ] + src + names_text(dst, false),
        SpecElement::Method { src, dst, desc, .. } => seq![0x6du8, SEPARATOR] + desc.unwrap() + seq![
            SEPARATOR,
        ] + src + names_text(dst, false),
        SpecElement::MethodArg { src, dst, lv_index, .. } => seq![0x70u8, SEPARATOR] + decimal(
            lv_index.unwrap() as nat,
        ) + opt_names_text(src, dst, false),
        SpecElement::MethodVar { src, dst, lv_index, lvt_row_index, op_idx, .. } => seq![
            0x76u8,
            SEPARATOR,
        ] + decimal(lv_index.unwrap() as nat) + seq![SEPARATOR] + decimal(op_idx.unwrap().0 as nat)
            + seq![SEPARATOR] + lvt_text(lvt_row_index) + opt_names_text(src, dst, false),
        SpecElement::Comment(c) => seq![0x63u8, SEPARATOR] + c,
    }
}

/// The scope of the elements written below an element.
pub open spec fn inner_scope(e: SpecElement) -> Scope {
    match e {
        SpecElement::Class { .. } => Scope::Class,
        SpecElement::Method { .. } => Scope::Method,
        _ => Scope::CommentOnly,
    }
}

/// The elements written below an element.
pub open spec fn content_of(e: SpecElement) -> Seq<SpecElement> {
    crate::enigma_roundtrip::content_of(e)
}

/// Fit optional names are written as they are.
pub proof fn lemma_opt_names_plain(src: Option<Seq<u8>>, dst: Option<Seq<Seq<u8>>>, esc: bool)
    requires
        opt_names_ok(src, dst, esc),
    ensures
        opt_names_text(src, dst, esc) == opt_names_text(src, dst, false),
{
    if let Some(n) = src {
        lemma_name_ok(n, esc);
        lemma_names_text_plain(dst.unwrap(), esc);
    }
}

/// A faithful element is written as its line, then its content one level deeper, and nothing
/// goes wrong.
pub proof fn lemma_emit_shape(e: SpecElement, k: nat, scope: Scope, esc: bool)
    requires
        faithful(e, scope, esc),
    ensures
        emit(e, k, scope, esc).0 == tabs(k) + written(e) + seq![0x0au8] + emit_all(
            content_of(e),
            k + 1,
            inner_scope(e),
            esc,
        ).0,
        emit(e, k, scope, esc).1 is None,
    decreases e, 1nat,
{
    match e {
        SpecElement::Comment(c) => {
            lemma_quiet_escape(c);
            assert(emit_all(Seq::<SpecElement>::empty(), k + 1, Scope::CommentOnly, esc).0
                == Seq::<u8>::empty());
            assert(comment_text(k, c) =~= tabs(k) + written(e) + seq![0x0au8] + Seq::<u8>::empty());
        },
        SpecElement::Class { .. } => lemma_shape_class(e, k, scope, esc),
        SpecElement::Field { .. } => lemma_shape_field(e, k, scope, esc),
        SpecElement::Method { .. } => lemma_shape_method(e, k, scope, esc),
        SpecElement::MethodArg { .. } => lemma_shape_arg(e, k, scope, esc),
        SpecElement::MethodVar { .. } => lemma_shape_var(e, k, scope, esc),
    }
}

#[verifier::spinoff_prover]
proof fn lemma_shape_class(e: SpecElement, k: nat, scope: Scope, esc: bool)
    requires
        faithful(e, scope, esc),
        e is Class,
    ensures
        emit(e, k, scope, esc).0 == tabs(k) + written(e) + seq![0x0au8] + emit_all(
            content_of(e),
            k + 1,
            inner_scope(e),
            esc,
        ).0,
        emit(e, k, scope, esc).1 is None,
    decreases e, 0nat,
{
    if let SpecElement::Class { src, dst, content } = e {
        lemma_name_ok(src, esc);
        lemma_names_text_plain(dst, esc);
        lemma_emit_all_ok(content, k + 1, Scope::Class, esc);
    }
}

#[verifier::spinoff_prover]
proof fn lemma_shape_field(e: SpecElement, k: nat, scope: Scope, esc: bool)
    requires
        faithful(e, scope, esc),
        e is Field,
    ensures
        emit(e, k, scope, esc).0 == tabs(k) + written(e) + seq![0x0au8] + emit_all(
            content_of(e),
            k + 1,
            inner_scope(e),
            esc,
        ).0,
        emit(e, k, scope, esc).1 is None,
    decreases e, 0nat,
{
    if let SpecElement::Field { src, dst, content, .. } = e {
        lemma_name_ok(src, esc);
        lemma_names_text_plain(dst, esc);
        lemma_emit_all_ok(content, k + 1, Scope::CommentOnly, esc);
    }
}

#[verifier::spinoff_prover]
proof fn lemma_shape_method(e: SpecElement, k: nat, scope: Scope, esc: bool)
    requires
        faithful(e, scope, esc),
        e is Method,
    ensures
        emit(e, k, scope, esc).0 == tabs(k) + written(e) + seq![0x0au8] + emit_all(
            content_of(e),
            k + 1,
            inner_scope(e),
            esc,
        ).0,
        emit(e, k, scope, esc).1 is None,
    decreases e, 0nat,
{
    if let SpecElement::Method { src, dst, content, .. } = e {
        lemma_name_ok(src, esc);
        lemma_names_text_plain(dst, esc);
        lemma_emit_all_ok(content, k + 1, Scope::Method, esc);
    }
}

#[verifier::spinoff_prover]
proof fn lemma_shape_arg(e: SpecElement, k: nat, scope: Scope, esc: bool)
    requires
        faithful(e, scope, esc),
        e is MethodArg,
    ensures
        emit(e, k, scope, esc).0 == tabs(k) + written(e) + seq![0x0au8] + emit_all(
            content_of(e),
            k + 1,
            inner_scope(e),
            esc,
        ).0,
        emit(e, k, scope, esc).1 is None,
    decreases e, 0nat,
{
    if let SpecElement::MethodArg { src, dst, content, .. } = e {
        lemma_opt_names_plain(src, dst, esc);
        lemma_emit_all_ok(content, k + 1, Scope::CommentOnly, esc);
    }
}

#[verifier::spinoff_prover]
proof fn lemma_shape_var(e: SpecElement, k: nat, scope: Scope, esc: bool)
    requires
        faithful(e, scope, esc),
        e is MethodVar,
    ensures
        emit(e, k, scope, esc).0 == tabs(k) + written(e) + seq![0x0au8] + emit_all(
            content_of(e),
            k + 1,
            inner_scope(e),
            esc,
        ).0,
        emit(e, k, scope, esc).1 is None,
    decreases e, 0nat,
{
    if let SpecElement::MethodVar { src, dst, content, .. } = e {
        lemma_opt_names_plain(src, dst, esc);
        lemma_emit_all_ok(content, k + 1, Scope::CommentOnly, esc);
    }
}

/// Writing faithful elements goes through without error.
pub proof fn lemma_emit_all_ok(es: Seq<SpecElement>, k: nat, scope: Scope, esc: bool)
    requires
        all_faithful(es, scope, esc),
    ensures
        emit_all(es, k, scope, esc).1 is None,
    decreases es, 2nat,
{
    if es.len() > 0 {
        lemma_emit_shape(es[0], k, scope, esc);
        lemma_emit_all_ok(es.subrange(1, es.len() as int), k, scope, esc);
    }
}

/// Text that a line holds as it is: non-empty, one line, neither starting nor ending with
/// whitespace.
pub open spec fn tight(s: Seq<u8>) -> bool {
    &&& s.len() > 0
    &&& !is_ascii_ws(s[0])
    &&& !is_ascii_ws(s.last())
    &&& one_line(s)
}

/// Tight texts joined by a separator stay tight.
pub proof fn lemma_tight_sep(a: Seq<u8>, b: Seq<u8>)
    requires
        tight(a),
        tight(b),
    ensures
        tight(a + seq![SEPARATOR] + b),
{
    assert(one_line(seq![SEPARATOR])) by {
        assert forall|i: int| 0 <= i < 1 implies #[trigger] seq![SEPARATOR][i] != 0x0au8 by {}
    }
    lemma_one_line_cat(a, seq![SEPARATOR]);
    lemma_one_line_cat(a + seq![SEPARATOR], b);
    assert((a + seq![SEPARATOR] + b)[0] == a[0]);
    assert((a + seq![SEPARATOR] + b).last() == b.last());
}

/// A fit name is tight.
pub proof fn lemma_name_tight(n: Seq<u8>, esc: bool)
    requires
        name_ok(n, esc),
    ensures
        tight(n),
{
    lemma_name_ok(n, esc);
    assert forall|i: int| 0 <= i < n.len() implies #[trigger] n[i] != 0x0au8 by {
        assert(n[i] != SEPARATOR && n[i] != 0x0au8);
    }
}

/// Fit names after a tight text keep it tight.
pub proof fn lemma_names_tight(a: Seq<u8>, d: Seq<Seq<u8>>, esc: bool)
    requires
        tight(a),
        names_ok(d, esc),
    ensures
        tight(a + names_text(d, false)),
    decreases d.len(),
{
    if d.len() == 0 {
        assert(a + names_text(d, false) =~= a);
    } else {
        assert(names_ok(d.drop_last(), esc)) by {
            assert forall|i: int| 0 <= i < d.drop_last().len() implies name_ok(
                #[trigger] d.drop_last()[i],
                esc,
            ) by {
                assert(d.drop_last()[i] == d[i]);
            }
        }
        lemma_names_tight(a, d.drop_last(), esc);
        lemma_name_tight(d.last(), esc);
        lemma_tight_sep(a + names_text(d.drop_last(), false), d.last());
        assert(a + names_text(d, false) =~= a + names_text(d.drop_last(), false) + seq![SEPARATOR]
            + d.last());
    }
}

/// Fit optional names after a tight text keep it tight.
pub proof fn lemma_opt_tight(a: Seq<u8>, src: Option<Seq<u8>>, dst: Option<Seq<Seq<u8>>>, esc: bool)
    requires
        tight(a),
        opt_names_ok(src, dst, esc),
    ensures
        tight(a + opt_names_text(src, dst, false)),
{
    match src {
        None => {
            assert(a + opt_names_text(src, dst, false) =~= a);
        },
        Some(n) => {
            lemma_name_tight(n, esc);
            lemma_tight_sep(a, n);
            lemma_names_tight(a + seq![SEPARATOR] + n, dst.unwrap(), esc);
            assert(a + opt_names_text(src, dst, false) =~= a + seq![SEPARATOR] + n + names_text(
                dst.unwrap(),
                false,
            ));
        },
    }
}

/// Decimal digits are tight.
pub proof fn lemma_decimal_tight(n: nat)
    ensures
        tight(decimal(n)),
        lacks_byte(decimal(n), SEPARATOR),
{
    crate::text::lemma_decimal_digits(n);
    let d = decimal(n);
    assert(0x30u8 <= d[0] <= 0x39u8);
    assert(0x30u8 <= d[d.len() - 1] <= 0x39u8);
    assert forall|i: int| 0 <= i < d.len() implies #[trigger] d[i] != 0x0au8 && d[i] != SEPARATOR by {
        assert(0x30u8 <= d[i] <= 0x39u8);
    }
}

/// The local variable table column is tight.
pub proof fn lemma_lvt_tight(lvt: Option<usize>)
    ensures
        tight(lvt_text(lvt)),
        lacks_byte(lvt_text(lvt), SEPARATOR),
{
    match lvt {
        Some(v) => lemma_decimal_tight(v as nat),
        None => {
            let m = crate::tiny2::minus_one();
            assert(m.len() == 2 && m[0] == 0x2du8 && m[1] == 0x31u8);
            assert forall|i: int| 0 <= i < m.len() implies #[trigger] m[i] != 0x0au8 && m[i]
                != SEPARATOR by {}
        },
    }
}

/// A type letter is tight.
pub proof fn lemma_letter_tight(b: u8)
    requires
        0x61u8 <= b <= 0x7au8,
    ensures
        tight(seq![b]),
{
    assert forall|i: int| 0 <= i < 1 implies #[trigger] seq![b][i] != 0x0au8 by {}
}

/// What the reader takes of an element's line: the written line, less the separator that an
/// empty comment ends with.
pub open spec fn entry_content(e: SpecElement) -> Seq<u8> {
    match e {
        SpecElement::Comment(c) => if c.len() == 0 {
            seq![0x63u8]
        } else {
            written(e)
        },
        _ => written(e),
    }
}

/// The columns of a faithful entry after its type letter.
pub open spec fn entry_rest(e: SpecElement) -> Seq<u8> {
    match e {
        SpecElement::Class { src, dst, .. } => src + names_text(dst, false),
        SpecElement::Field { src, dst, desc, .. } => desc.unwrap() + seq![SEPARATOR] + src
            + names_text(dst, false),
        SpecElement::Method { src, dst, desc, .. } => desc.unwrap() + seq![SEPARATOR] + src
            + names_text(dst, false),
        SpecElement::MethodArg { src, dst, lv_index, .. } => decimal(lv_index.unwrap() as nat)
            + opt_names_text(src, dst, false),
        SpecElement::MethodVar { src, dst, lv_index, lvt_row_index, op_idx, .. } => decimal(
            lv_index.unwrap() as nat,
        ) + seq![SEPARATOR] + decimal(op_idx.unwrap().0 as nat) + seq![SEPARATOR] + lvt_text(
            lvt_row_index,
        ) + opt_names_text(src, dst, false),
        SpecElement::Comment(c) => c,
    }
}

/// The type letter of an element's line.
pub open spec fn entry_letter(e: SpecElement) -> u8 {
    match e {
        SpecElement::Class { .. } => 0x63u8,
        SpecElement::Field { .. } => 0x66u8,
        SpecElement::Method { .. } => 0x6du8,
        SpecElement::MethodArg { .. } => 0x70u8,
        SpecElement::MethodVar { .. } => 0x76u8,
        SpecElement::Comment(_) => 0x63u8,
    }
}

/// The columns after the type letter of a faithful entry (not a comment) are tight.
#[verifier::spinoff_prover]
pub proof fn lemma_rest_tight(e: SpecElement, scope: Scope, esc: bool)
    requires
        faithful(e, scope, esc),
        !(e is Comment),
    ensures
        tight(entry_rest(e)),
        written(e) == seq![entry_letter(e)] + seq![SEPARATOR] + entry_rest(e),
{
    match e {
        SpecElement::Class { src, dst, .. } => {
            lemma_name_tight(src, esc);
            lemma_names_tight(src, dst, esc);
        },
        SpecElement::Field { src, dst, desc, .. } => {
            let d = desc.unwrap();
            lemma_name_tight(src, esc);
            lemma_name_tight(d, esc);
            lemma_tight_sep(d, src);
            lemma_names_tight(d + seq![SEPARATOR] + src, dst, esc);
        },
        SpecElement::Method { src, dst, desc, .. } => {
            let d = desc.unwrap();
            lemma_name_tight(src, esc);
            lemma_name_tight(d, esc);
            lemma_tight_sep(d, src);
            lemma_names_tight(d + seq![SEPARATOR] + src, dst, esc);
        },
        SpecElement::MethodArg { src, dst, lv_index, .. } => {
            lemma_decimal_tight(lv_index.unwrap() as nat);
            lemma_opt_tight(decimal(lv_index.unwrap() as nat), src, dst, esc);
        },
        SpecElement::MethodVar { src, dst, lv_index, lvt_row_index, op_idx, .. } => {
            let a = decimal(lv_index.unwrap() as nat);
            let b = decimal(op_idx.unwrap().0 as nat);
            lemma_decimal_tight(lv_index.unwrap() as nat);
            lemma_decimal_tight(op_idx.unwrap().0 as nat);
            lemma_lvt_tight(lvt_row_index);
            lemma_tight_sep(a, b);
            lemma_tight_sep(a + seq![SEPARATOR] + b, lvt_text(lvt_row_index));
            lemma_opt_tight(
                a + seq![SEPARATOR] + b + seq![SEPARATOR] + lvt_text(lvt_row_index),
                src,
                dst,
                esc,
            );
        },
        _ => {},
    }
    assert(written(e) =~= seq![entry_letter(e)] + seq![SEPARATOR] + entry_rest(e));
}

/// The line of a faithful element: one line, its indentation counted, and its content what the
/// reader takes of it.
pub proof fn lemma_written_line(e: SpecElement, k: nat, scope: Scope, esc: bool)
    requires
        faithful(e, scope, esc),
    ensures
        one_line(tabs(k) + written(e)),
        leading_count(tabs(k) + written(e), crate::enigma::INDENT) == k,
        line_content(tabs(k) + written(e), crate::enigma::INDENT) == entry_content(e),
        entry_content(e).len() > 0,
        entry_content(e)[0] == entry_letter(e),
{
    let w = written(e);
    assert(one_line(tabs(k))) by {
        assert forall|i: int| 0 <= i < tabs(k).len() implies #[trigger] tabs(k)[i] != 0x0au8 by {}
    }
    lemma_letter_tight(entry_letter(e));
    match e {
        SpecElement::Comment(c) => {
            lemma_quiet_escape(c);
            assert forall|i: int| 0 <= i < w.len() implies #[trigger] w[i] != 0x0au8 by {
                if i >= 2 {
                    assert(w[i] == c[i - 2]);
                }
            }
            if c.len() == 0 {
                assert(w =~= seq![0x63u8, SEPARATOR]);
                lemma_leading_tabs(k, w);
                let t = tabs(k) + w;
                assert(t.subrange(k as int, t.len() as int) =~= w);
                assert(trim_start(w) == w);
                assert(w.drop_last() =~= seq![0x63u8]);
                assert(trim_end(seq![0x63u8]) == seq![0x63u8]);
                assert(trim_end(w) == seq![0x63u8]);
            } else {
                assert(w.last() == c.last());
                assert(0x20u8 < c[c.len() - 1] <= 0x7eu8);
                lemma_indented_line(k, w);
            }
        },
        _ => {
            lemma_rest_tight(e, scope, esc);
            lemma_tight_sep(seq![entry_letter(e)], entry_rest(e));
            lemma_indented_line(k, w);
        },
    }
    lemma_one_line_cat(tabs(k), w);
}

/// Reading a column before names: the column, and the names left on the line.
pub proof fn lemma_read_then_names(st: ColState, a: Seq<u8>, d: Seq<Seq<u8>>, esc: bool)
    requires
        st.line == Some(a + names_text(d, false)),
        a.len() > 0,
        lacks_byte(a, SEPARATOR),
        names_ok(d, esc),
    ensures
        spec_read_col(st, SEPARATOR) == (
            Some(a),
            ColState { line: names_line(d), last_col: Some(a), ..st },
        ),
{
    if d.len() == 0 {
        assert(a + names_text(d, false) =~= a);
        lemma_col_last(st, a);
    } else {
        lemma_names_text_cons(d, false);
        let r = d[0] + names_text(d.drop_first(), false);
        assert(a + names_text(d, false) =~= a + seq![SEPARATOR] + r);
        lemma_col_split(st, a, r);
    }
}

/// Reading a fit source name and fit destination names gives them back.
pub proof fn lemma_take_names(st: ColState, src: Seq<u8>, d: Seq<Seq<u8>>, esc: bool, section: &'static str)
    requires
        st.line == Some(src + names_text(d, false)),
        name_ok(src, esc),
        names_ok(d, esc),
    ensures
        take_names(st, esc, section).0 == Ok::<(Seq<u8>, Seq<Seq<u8>>), SpecErrorKind>((src, d)),
        take_names(st, esc, section).1.rest == st.rest,
{
    lemma_name_ok(src, esc);
    lemma_read_then_names(st, src, d, esc);
    let st2 = ColState { line: names_line(d), last_col: Some(src), ..st };
    lemma_take_dsts(st2, d, esc);
}

/// What stands of a line before optional names.
pub open spec fn opt_line(src: Option<Seq<u8>>, dst: Option<Seq<Seq<u8>>>) -> Option<Seq<u8>> {
    match src {
        None => None,
        Some(n) => Some(n + names_text(dst.unwrap(), false)),
    }
}

/// Reading a column before optional names: the column, and the names left on the line.
pub proof fn lemma_read_then_opt(
    st: ColState,
    a: Seq<u8>,
    src: Option<Seq<u8>>,
    dst: Option<Seq<Seq<u8>>>,
    esc: bool,
)
    requires
        st.line == Some(a + opt_names_text(src, dst, false)),
        a.len() > 0,
        lacks_byte(a, SEPARATOR),
        opt_names_ok(src, dst, esc),
    ensures
        spec_read_col(st, SEPARATOR) == (
            Some(a),
            ColState { line: opt_line(src, dst), last_col: Some(a), ..st },
        ),
{
    match src {
        None => {
            assert(a + opt_names_text(src, dst, false) =~= a);
            lemma_col_last(st, a);
        },
        Some(n) => {
            let r = n + names_text(dst.unwrap(), false);
            assert(a + opt_names_text(src, dst, false) =~= a + seq![SEPARATOR] + r);
            lemma_col_split(st, a, r);
        },
    }
}

/// Reading fit optional names gives them back.
pub proof fn lemma_take_opt(st: ColState, src: Option<Seq<u8>>, dst: Option<Seq<Seq<u8>>>, esc: bool)
    requires
        st.line == opt_line(src, dst),
        opt_names_ok(src, dst, esc),
    ensures
        take_opt_names(st, esc).0 == Ok::<
            (Option<Seq<u8>>, Option<Seq<Seq<u8>>>),
            SpecErrorKind,
        >((src, dst)),
        take_opt_names(st, esc).1.rest == st.rest,
{
    if let Some(n) = src {
        lemma_name_ok(n, esc);
        lemma_read_then_names(st, n, dst.unwrap(), esc);
        let st2 = ColState { line: names_line(dst.unwrap()), last_col: Some(n), ..st };
        lemma_take_dsts(st2, dst.unwrap(), esc);
    }
}

/// A column of decimal digits reads back as its number.
pub proof fn lemma_take_decimal(st: ColState, n: usize, st2: ColState, section: &'static str)
    requires
        spec_read_col(st, SEPARATOR) == (Some(decimal(n as nat)), st2),
    ensures
        take_usize(st, section) == (Ok::<usize, SpecErrorKind>(n), st2),
        take_lvt(st) == (Ok::<Option<usize>, SpecErrorKind>(Some(n)), st2),
{
    crate::text::lemma_decimal_ascii(n as nat);
    crate::text::lemma_decimal_reads_back(n as nat, usize::MAX as nat);
    crate::text::lemma_decimal_digits(n as nat);
    let d = decimal(n as nat);
    assert(0x30u8 <= d[0] <= 0x39u8);
    assert(d != crate::tiny2::minus_one()) by {
        assert(crate::tiny2::minus_one()[0] == 0x2du8);
    }
}

/// The local variable table column reads back as the index it was written from.
pub proof fn lemma_take_lvt(st: ColState, lvt: Option<usize>, st2: ColState)
    requires
        spec_read_col(st, SEPARATOR) == (Some(lvt_text(lvt)), st2),
    ensures
        take_lvt(st) == (Ok::<Option<usize>, SpecErrorKind>(lvt), st2),
{
    match lvt {
        Some(v) => lemma_take_decimal(st, v, st2, "lv-start-offset"),
        None => {
            let m = crate::tiny2::minus_one();
            assert forall|i: int| 0 <= i < m.len() implies #[trigger] m[i] < 0x80u8 by {}
            crate::text::lemma_ascii_utf8(m);
        },
    }
}

/// The kind of an element's line.
pub open spec fn tag_of(e: SpecElement) -> Tag {
    match e {
        SpecElement::Class { .. } => Tag::Class,
        SpecElement::Field { .. } => Tag::Field,
        SpecElement::Method { .. } => Tag::Method,
        SpecElement::MethodArg { .. } => Tag::Param,
        SpecElement::MethodVar { .. } => Tag::Var,
        SpecElement::Comment(_) => Tag::Comment,
    }
}

/// The columns of an element's line.
pub open spec fn head_of(e: SpecElement) -> SpecHead {
    match e {
        SpecElement::Class { src, dst, .. } => SpecHead::Class { src, dst },
        SpecElement::Field { src, dst, desc, .. } => SpecHead::Field { desc: desc.unwrap(), src, dst },
        SpecElement::Method { src, dst, desc, .. } => SpecHead::Method {
            desc: desc.unwrap(),
            src,
            dst,
        },
        SpecElement::MethodArg { src, dst, lv_index, .. } => SpecHead::Param {
            lv: lv_index.unwrap(),
            src,
            dst,
        },
        SpecElement::MethodVar { src, dst, lv_index, lvt_row_index, op_idx, .. } => SpecHead::Var {
            lv: lv_index.unwrap(),
            start: op_idx.unwrap().0,
            lvt: lvt_row_index,
            src,
            dst,
        },
        SpecElement::Comment(_) => arbitrary(),
    }
}

#[verifier::spinoff_prover]
proof fn lemma_head_named(e: SpecElement, scope: Scope, esc: bool, st: ColState)
    requires
        faithful(e, scope, esc),
        e is Class || e is Field || e is Method,
        st.line == Some(entry_rest(e)),
    ensures
        take_head(tag_of(e), st, esc).0 == Ok::<SpecHead, SpecErrorKind>(head_of(e)),
        take_head(tag_of(e), st, esc).1.rest == st.rest,
        head_element(head_of(e), content_of(e)) == e,
{
    match e {
        SpecElement::Class { src, dst, .. } => {
            lemma_take_names(st, src, dst, esc, "class-name-a");
        },
        SpecElement::Field { src, dst, desc, .. } => {
            let d = desc.unwrap();
            lemma_name_ok(d, esc);
            let r = src + names_text(dst, false);
            assert(entry_rest(e) =~= d + seq![SEPARATOR] + r);
            lemma_col_split(st, d, r);
            let st1 = ColState { line: Some(r), last_col: Some(d), ..st };
            assert(take_name(st, esc, "field-desc-a") == (
                Ok::<Seq<u8>, SpecErrorKind>(d),
                st1,
            ));
            lemma_take_names(st1, src, dst, esc, "field-name-a");
        },
        SpecElement::Method { src, dst, desc, .. } => {
            let d = desc.unwrap();
            lemma_name_ok(d, esc);
            let r = src + names_text(dst, false);
            assert(entry_rest(e) =~= d + seq![SEPARATOR] + r);
            lemma_col_split(st, d, r);
            let st1 = ColState { line: Some(r), last_col: Some(d), ..st };
            assert(take_name(st, esc, "field-desc-a") == (
                Ok::<Seq<u8>, SpecErrorKind>(d),
                st1,
            ));
            lemma_take_names(st1, src, dst, esc, "field-name-a");
        },
        _ => {},
    }
}

#[verifier::spinoff_prover]
proof fn lemma_head_arg(e: SpecElement, scope: Scope, esc: bool, st: ColState)
    requires
        faithful(e, scope, esc),
        e is MethodArg,
        st.line == Some(entry_rest(e)),
    ensures
        take_head(tag_of(e), st, esc).0 == Ok::<SpecHead, SpecErrorKind>(head_of(e)),
        take_head(tag_of(e), st, esc).1.rest == st.rest,
        head_element(head_of(e), content_of(e)) == e,
{
    if let SpecElement::MethodArg { src, dst, lv_index, .. } = e {
        let lv = lv_index.unwrap();
        lemma_decimal_tight(lv as nat);
        lemma_read_then_opt(st, decimal(lv as nat), src, dst, esc);
        let st1 = ColState { line: opt_line(src, dst), last_col: Some(decimal(lv as nat)), ..st };
        lemma_take_decimal(st, lv, st1, "lv-index");
        lemma_take_opt(st1, src, dst, esc);
    }
}

#[verifier::spinoff_prover]
proof fn lemma_head_var(e: SpecElement, scope: Scope, esc: bool, st: ColState)
    requires
        faithful(e, scope, esc),
        e is MethodVar,
        st.line == Some(entry_rest(e)),
    ensures
        take_head(tag_of(e), st, esc).0 == Ok::<SpecHead, SpecErrorKind>(head_of(e)),
        take_head(tag_of(e), st, esc).1.rest == st.rest,
        head_element(head_of(e), content_of(e)) == e,
{
    if let SpecElement::MethodVar { src, dst, lv_index, lvt_row_index, op_idx, .. } = e {
        let lv = lv_index.unwrap();
        let start = op_idx.unwrap().0;
        let a = decimal(lv as nat);
        let b = decimal(start as nat);
        let t = lvt_text(lvt_row_index);
        lemma_decimal_tight(lv as nat);
        lemma_decimal_tight(start as nat);
        lemma_lvt_tight(lvt_row_index);
        let r2 = t + opt_names_text(src, dst, false);
        let r1 = b + seq![SEPARATOR] + r2;
        assert(entry_rest(e) =~= a + seq![SEPARATOR] + r1);
        lemma_col_split(st, a, r1);
        let st1 = ColState { line: Some(r1), last_col: Some(a), ..st };
        lemma_take_decimal(st, lv, st1, "lv-index");
        lemma_col_split(st1, b, r2);
        let st2 = ColState { line: Some(r2), last_col: Some(b), ..st };
        lemma_take_decimal(st1, start, st2, "lv-start-offset");
        lemma_read_then_opt(st2, t, src, dst, esc);
        let st3 = ColState { line: opt_line(src, dst), last_col: Some(t), ..st };
        lemma_take_lvt(st2, lvt_row_index, st3);
        lemma_take_opt(st3, src, dst, esc);
        assert(op_idx == Some((start, None::<usize>)));
    }
}

/// Reading the columns of a faithful entry (not a comment) gives back its head.
pub proof fn lemma_head_reads(e: SpecElement, scope: Scope, esc: bool, st: ColState)
    requires
        faithful(e, scope, esc),
        !(e is Comment),
        st.line == Some(entry_rest(e)),
    ensures
        take_head(tag_of(e), st, esc).0 == Ok::<SpecHead, SpecErrorKind>(head_of(e)),
        take_head(tag_of(e), st, esc).1.rest == st.rest,
        head_element(head_of(e), content_of(e)) == e,
{
    match e {
        SpecElement::MethodArg { .. } => lemma_head_arg(e, scope, esc, st),
        SpecElement::MethodVar { .. } => lemma_head_var(e, scope, esc, st),
        _ => lemma_head_named(e, scope, esc, st),
    }
}

/// The first line of what a faithful element writes, and where the reader stands after it.
pub proof fn lemma_first_line(e: SpecElement, k: nat, scope: Scope, esc: bool, y: Seq<u8>)
    requires
        faithful(e, scope, esc),
    ensures
        ({
            let x = emit(e, k, scope, esc).0 + y;
            let body = emit_all(content_of(e), k + 1, inner_scope(e), esc).0;
            &&& opens(x)
            &&& first_depth(x) == k
            &&& line_state(x) == (ColState {
                rest: body + y,
                line: Some(entry_content(e)),
                indent: Some(k as usize),
                last_col: None,
            })
            &&& x == (tabs(k) + written(e)) + seq![0x0au8] + (body + y)
            &&& one_line(tabs(k) + written(e))
        }),
{
    lemma_emit_shape(e, k, scope, esc);
    lemma_written_line(e, k, scope, esc);
    let body = emit_all(content_of(e), k + 1, inner_scope(e), esc).0;
    let x = emit(e, k, scope, esc).0 + y;
    assert(x =~= (tabs(k) + written(e)) + seq![0x0au8] + (body + y));
    lemma_line_split(tabs(k) + written(e), body + y);
}

/// Writing faithful elements: the first one, then the others.
pub proof fn lemma_emit_all_cons(es: Seq<SpecElement>, k: nat, scope: Scope, esc: bool)
    requires
        all_faithful(es, scope, esc),
        es.len() > 0,
    ensures
        emit_all(es, k, scope, esc).0 == emit(es[0], k, scope, esc).0 + emit_all(
            es.subrange(1, es.len() as int),
            k,
            scope,
            esc,
        ).0,
        all_faithful(es.subrange(1, es.len() as int), scope, esc),
        faithful(es[0], scope, esc),
        heights(es.subrange(1, es.len() as int)) <= heights(es),
        height(es[0]) <= heights(es),
{
    lemma_emit_shape(es[0], k, scope, esc);
    lemma_heights(es, 0);
}

/// After faithful elements at depth `k`, the text that closes depth `k` closes the deeper level.
pub proof fn lemma_closes_next(es: Seq<SpecElement>, k: nat, scope: Scope, esc: bool, s: Seq<u8>)
    requires
        all_faithful(es, scope, esc),
        closes(s, k),
    ensures
        closes(emit_all(es, k, scope, esc).0 + s, k + 1),
{
    if es.len() == 0 {
        assert(emit_all(es, k, scope, esc).0 + s =~= s);
    } else {
        lemma_emit_all_cons(es, k, scope, esc);
        let rest = emit_all(es.subrange(1, es.len() as int), k, scope, esc).0 + s;
        assert(emit_all(es, k, scope, esc).0 + s =~= emit(es[0], k, scope, esc).0 + rest);
        lemma_first_line(es[0], k, scope, esc, rest);
    }
}

/// Reading at depth `k` in scope `scope` before what a faithful element wrote, followed by a
/// text that closes the level below: the element comes back, and the reader stands before the
/// text.
pub proof fn lemma_item_reads(e: SpecElement, k: usize, scope: Scope, esc: bool, s: Seq<u8>, p: Pos)
    requires
        faithful(e, scope, esc),
        k + height(e) <= usize::MAX,
        closes(s, (k + 1) as nat),
        at(p, emit(e, k as nat, scope, esc).0 + s),
    ensures
        item(p, k, scope, esc).0 == Ok::<Option<SpecElement>, SpecErrorKind>(Some(e)),
        at(item(p, k, scope, esc).1, s),
    decreases e, 2nat,
{
    match e {
        SpecElement::Comment(c) => {
            let x = emit(e, k as nat, scope, esc).0 + s;
            lemma_first_line(e, k as nat, scope, esc, s);
            lemma_fetch_open(p, x, k);
            lemma_quiet_escape(c);
            let st1 = line_state(x);
            assert(emit_all(Seq::<SpecElement>::empty(), (k + 1) as nat, Scope::CommentOnly, esc).0
                == Seq::<u8>::empty());
            assert(st1.rest =~= s);
            if c.len() == 0 {
                assert(lacks_byte(seq![0x63u8], SEPARATOR));
                lemma_col_last(st1, seq![0x63u8]);
                assert(c =~= Seq::<u8>::empty());
            } else {
                assert(lacks_byte(seq![0x63u8], SEPARATOR));
                assert(entry_content(e) =~= seq![0x63u8] + seq![SEPARATOR] + c);
                lemma_col_split(st1, seq![0x63u8], c);
            }
            assert(classify(scope, seq![0x63u8]) == Some(Tag::Comment));
        },
        _ => {
            lemma_entry_reads(e, k, scope, esc, s, p);
        },
    }
}

/// Reading a faithful entry (not a comment): its line, then its content one level deeper.
#[verifier::spinoff_prover]
#[verifier::rlimit(80)]
pub proof fn lemma_entry_reads(e: SpecElement, k: usize, scope: Scope, esc: bool, s: Seq<u8>, p: Pos)
    requires
        faithful(e, scope, esc),
        !(e is Comment),
        k + height(e) <= usize::MAX,
        closes(s, (k + 1) as nat),
        at(p, emit(e, k as nat, scope, esc).0 + s),
    ensures
        item(p, k, scope, esc).0 == Ok::<Option<SpecElement>, SpecErrorKind>(Some(e)),
        at(item(p, k, scope, esc).1, s),
    decreases e, 1nat,
{
    let x = emit(e, k as nat, scope, esc).0 + s;
    let body = emit_all(content_of(e), (k + 1) as nat, inner_scope(e), esc).0;
    lemma_first_line(e, k as nat, scope, esc, s);
    lemma_fetch_open(p, x, k);
    lemma_rest_tight(e, scope, esc);
    let st1 = line_state(x);
    let letter = seq![entry_letter(e)];
    assert(lacks_byte(letter, SEPARATOR));
    lemma_col_split(st1, letter, entry_rest(e));
    let st2 = ColState { line: Some(entry_rest(e)), last_col: Some(letter), ..st1 };
    assert(classify(scope, letter) == Some(tag_of(e)));
    lemma_head_reads(e, scope, esc, st2);
    let st3 = take_head(tag_of(e), st2, esc).1;
    let p3 = Pos { st: st3, fresh: false };
    lemma_measure_line(p, tabs(k as nat) + written(e), body + s);
    assert(measure(p3) < measure(p));
    assert(content_scope(tag_of(e)) == inner_scope(e));
    match e {
        SpecElement::Class { content, .. } => {
            lemma_items_read(content, (k + 1) as usize, Scope::Class, esc, s, p3);
        },
        SpecElement::Field { content, .. } => {
            lemma_items_read(content, (k + 1) as usize, Scope::CommentOnly, esc, s, p3);
        },
        SpecElement::Method { content, .. } => {
            lemma_items_read(content, (k + 1) as usize, Scope::Method, esc, s, p3);
        },
        SpecElement::MethodArg { content, .. } => {
            lemma_items_read(content, (k + 1) as usize, Scope::CommentOnly, esc, s, p3);
        },
        SpecElement::MethodVar { content, .. } => {
            lemma_items_read(content, (k + 1) as usize, Scope::CommentOnly, esc, s, p3);
        },
        _ => {},
    }
}

/// Reading at depth `k` in scope `scope` before what faithful elements wrote, followed by a
/// text that closes depth `k`: the elements come back, and the reader stands before the text.
#[verifier::spinoff_prover]
#[verifier::rlimit(30)]
pub proof fn lemma_items_read(es: Seq<SpecElement>, k: usize, scope: Scope, esc: bool, s: Seq<u8>, p: Pos)
    requires
        all_faithful(es, scope, esc),
        k + heights(es) <= usize::MAX,
        closes(s, k as nat),
        at(p, emit_all(es, k as nat, scope, esc).0 + s),
    ensures
        items(p, k, scope, esc).0 == Ok::<Seq<SpecElement>, SpecErrorKind>(es),
        at(items(p, k, scope, esc).1, s),
    decreases es, 0nat,
{
    if es.len() == 0 {
        assert(emit_all(es, k as nat, scope, esc).0 + s =~= s);
        lemma_fetch_close(p, s, k);
        assert(es =~= Seq::<SpecElement>::empty());
    } else {
        let rest = es.subrange(1, es.len() as int);
        lemma_emit_all_cons(es, k as nat, scope, esc);
        let s2 = emit_all(rest, k as nat, scope, esc).0 + s;
        assert(emit_all(es, k as nat, scope, esc).0 + s =~= emit(es[0], k as nat, scope, esc).0 + s2);
        lemma_closes_next(rest, k as nat, scope, esc, s);
        lemma_item_reads(es[0], k, scope, esc, s2, p);
        let p2 = item(p, k, scope, esc).1;
        lemma_first_line(es[0], k as nat, scope, esc, s2);
        lemma_measure_line(
            p,
            tabs(k as nat) + written(es[0]),
            emit_all(content_of(es[0]), (k + 1) as nat, inner_scope(es[0]), esc).0 + s2,
        );
        lemma_measure_at(p2, s2);
        lemma_items_read(rest, k, scope, esc, s, p2);
        assert(seq![es[0]] + rest =~= es);
    }
}

/// A property that a property line holds: a fit key, and no value or a non-empty quiet value
/// that does not end in a space.
pub open spec fn prop_ok(pr: (Seq<u8>, Option<Seq<u8>>)) -> bool {
    &&& name_ok(pr.0, false)
    &&& match pr.1 {
        None => true,
        Some(x) => x.len() > 0 && quiet(x) && x.last() != 0x20u8,
    }
}

/// Every property of `ps` can stand on a property line.
pub open spec fn props_ok(ps: Seq<(Seq<u8>, Option<Seq<u8>>)>) -> bool {
    forall|i: int| 0 <= i < ps.len() ==> prop_ok(#[trigger] ps[i])
}

/// The properties `ps` added one after another to the sorted properties `acc`, a later key
/// replacing the value of an equal one.
pub open spec fn fold_props(
    acc: Seq<(Seq<u8>, Option<Seq<u8>>)>,
    ps: Seq<(Seq<u8>, Option<Seq<u8>>)>,
) -> Seq<(Seq<u8>, Option<Seq<u8>>)>
    decreases ps.len(),
{
    if ps.len() == 0 {
        acc
    } else {
        fold_props(sorted_insert(acc, ps[0].0, ps[0].1), ps.drop_first())
    }
}

/// A key is among the added properties exactly when it was before or one of `ps` has it.
pub proof fn lemma_fold_lookup(
    acc: Seq<(Seq<u8>, Option<Seq<u8>>)>,
    ps: Seq<(Seq<u8>, Option<Seq<u8>>)>,
    key: Seq<u8>,
)
    requires
        keys_sorted(acc),
    ensures
        keys_sorted(fold_props(acc, ps)),
        (lookup(fold_props(acc, ps), key) is Some) == (lookup(acc, key) is Some || exists|i: int|
            0 <= i < ps.len() && #[trigger] ps[i].0 == key),
    decreases ps.len(),
{
    if ps.len() > 0 {
        let acc2 = sorted_insert(acc, ps[0].0, ps[0].1);
        lemma_sorted_insert(acc, ps[0].0, ps[0].1);
        lemma_lookup_insert(acc, ps[0].0, ps[0].1, key);
        let t = ps.drop_first();
        lemma_fold_lookup(acc2, t, key);
        if exists|i: int| 0 <= i < ps.len() && #[trigger] ps[i].0 == key {
            let i = choose|i: int| 0 <= i < ps.len() && #[trigger] ps[i].0 == key;
            if i > 0 {
                assert(t[i - 1].0 == key);
            }
        }
        if exists|i: int| 0 <= i < t.len() && #[trigger] t[i].0 == key {
            let i = choose|i: int| 0 <= i < t.len() && #[trigger] t[i].0 == key;
            assert(ps[i + 1].0 == key);
        }
    }
}

/// The property lines, told from the first one on.
pub proof fn lemma_props_text_cons(ps: Seq<(Seq<u8>, Option<Seq<u8>>)>)
    requires
        ps.len() > 0,
    ensures
        props_text(ps) == prop_line(ps[0].0, ps[0].1) + props_text(ps.drop_first()),
    decreases ps.len(),
{
    if ps.len() == 1 {
        assert(ps.drop_last() =~= Seq::<(Seq<u8>, Option<Seq<u8>>)>::empty());
        assert(ps.drop_first() =~= Seq::<(Seq<u8>, Option<Seq<u8>>)>::empty());
        assert(ps.last() == ps[0]);
    } else {
        lemma_props_text_cons(ps.drop_last());
        assert(ps.drop_last()[0] == ps[0]);
        assert(ps.drop_last().drop_first() =~= ps.drop_first().drop_last());
        assert(ps.drop_first().last() == ps.last());
    }
}

/// What the reader takes of a property line.
pub open spec fn prop_content(pr: (Seq<u8>, Option<Seq<u8>>)) -> Seq<u8> {
    match pr.1 {
        None => pr.0,
        Some(x) => pr.0 + seq![SEPARATOR] + x,
    }
}

/// A property line: one tab deep, with the content the reader takes.
pub proof fn lemma_prop_line(pr: (Seq<u8>, Option<Seq<u8>>))
    requires
        prop_ok(pr),
    ensures
        prop_line(pr.0, pr.1) == (tabs(1) + prop_content(pr)) + seq![0x0au8],
        one_line(tabs(1) + prop_content(pr)),
        leading_count(tabs(1) + prop_content(pr), crate::enigma::INDENT) == 1,
        line_content(tabs(1) + prop_content(pr), crate::enigma::INDENT) == prop_content(pr),
{
    lemma_name_tight(pr.0, false);
    match pr.1 {
        None => {},
        Some(x) => {
            lemma_quiet_escape(x);
            let c = prop_content(pr);
            assert(c[0] == pr.0[0]);
            assert(c.last() == x.last());
            assert(0x20u8 < x[x.len() - 1] <= 0x7eu8);
            assert(one_line(x)) by {
                assert forall|i: int| 0 <= i < x.len() implies #[trigger] x[i] != 0x0au8 by {
                    assert(0x20u8 <= x[i]);
                }
            }
            assert(one_line(seq![SEPARATOR])) by {
                assert forall|i: int| 0 <= i < 1 implies #[trigger] seq![SEPARATOR][i] != 0x0au8 by {}
            }
            lemma_one_line_cat(pr.0, seq![SEPARATOR]);
            lemma_one_line_cat(pr.0 + seq![SEPARATOR], x);
        },
    }
    assert(one_line(tabs(1))) by {
        assert forall|i: int| 0 <= i < tabs(1).len() implies #[trigger] tabs(1)[i] != 0x0au8 by {}
    }
    lemma_one_line_cat(tabs(1), prop_content(pr));
    lemma_indented_line(1, prop_content(pr));
    assert(prop_line(pr.0, pr.1) =~= (tabs(1) + prop_content(pr)) + seq![0x0au8]);
}

/// Reading the columns of a property line gives back the property.
pub proof fn lemma_take_prop(st: ColState, pr: (Seq<u8>, Option<Seq<u8>>))
    requires
        prop_ok(pr),
        st.line == Some(prop_content(pr)),
    ensures
        take_prop(st) == (
            Ok::<(Option<Seq<u8>>, Option<Seq<u8>>), SpecErrorKind>((Some(pr.0), pr.1)),
            take_prop(st).1,
        ),
        take_prop(st).1.rest == st.rest,
{
    lemma_name_ok(pr.0, false);
    match pr.1 {
        None => {
            lemma_col_last(st, pr.0);
        },
        Some(x) => {
            lemma_quiet_escape(x);
            assert(lacks_byte(x, SEPARATOR)) by {
                assert forall|i: int| 0 <= i < x.len() implies x[i] != SEPARATOR by {
                    assert(0x20u8 <= x[i]);
                }
            }
            lemma_col_split(st, pr.0, x);
            let st1 = ColState { line: Some(x), last_col: Some(pr.0), ..st };
            lemma_col_last(st1, x);
        },
    }
}

/// Reading property lines gives back the properties added one after another, and leaves the
/// reader before the text after them.
pub proof fn lemma_props_read(
    ps: Seq<(Seq<u8>, Option<Seq<u8>>)>,
    acc: Seq<(Seq<u8>, Option<Seq<u8>>)>,
    p: Pos,
    body: Seq<u8>,
)
    requires
        props_ok(ps),
        keys_sorted(acc),
        !p.fresh,
        p.st.rest == props_text(ps) + body,
        closes(body, 1),
    ensures
        props_from(p, acc).0 == Ok::<Seq<(Seq<u8>, Option<Seq<u8>>)>, SpecErrorKind>(
            fold_props(acc, ps),
        ),
        at(props_from(p, acc).1, body),
    decreases ps.len(),
{
    if ps.len() == 0 {
        assert(props_text(ps) + body =~= body);
        if body.len() == 0 {
            lemma_find_byte(body, 0x0au8);
            let (r, st2) = crate::cursor::slice_next_line(p.st, crate::enigma::INDENT);
            assert(r is None && st2.rest =~= body);
            assert(crate::cursor::slice_skip_blank(p.st, crate::enigma::INDENT) == (r, st2, 0nat));
        } else {
            crate::enigma_roundtrip::lemma_take_line(p.st);
        }
    } else {
        let pr = ps[0];
        let t = ps.drop_first();
        assert(prop_ok(pr));
        assert(props_ok(t)) by {
            assert forall|i: int| 0 <= i < t.len() implies prop_ok(#[trigger] t[i]) by {
                assert(t[i] == ps[i + 1]);
            }
        }
        lemma_props_text_cons(ps);
        lemma_prop_line(pr);
        let rest = props_text(t) + body;
        let l = tabs(1) + prop_content(pr);
        assert(p.st.rest =~= l + seq![0x0au8] + rest);
        lemma_line_split(l, rest);
        crate::enigma_roundtrip::lemma_take_line(p.st);
        let st1 = line_state(p.st.rest);
        lemma_take_prop(st1, pr);
        let st2 = take_prop(st1).1;
        let p2 = Pos { st: st2, fresh: false };
        lemma_sorted_insert(acc, pr.0, pr.1);
        lemma_props_read(t, sorted_insert(acc, pr.0, pr.1), p2, body);
    }
}

/// The header line as written: the magic columns, the minor version and the namespaces.
pub open spec fn header_content(minor: u16, src: Seq<u8>, dst: Seq<Seq<u8>>) -> Seq<u8> {
    magic() + decimal(minor as nat) + seq![SEPARATOR] + src + names_text(dst, false)
}

/// The text `tiny`.
pub open spec fn tiny_word() -> Seq<u8> {
    seq![0x74u8, 0x69u8, 0x6eu8, 0x79u8]
}

/// Reading the header that the serializer writes gives back the namespaces and the properties
/// added one after another, and leaves the reader before the text after it.
pub proof fn lemma_header_read(
    minor: u16,
    src: Seq<u8>,
    dst: Seq<Seq<u8>>,
    props: Seq<(Seq<u8>, Option<Seq<u8>>)>,
    body: Seq<u8>,
)
    requires
        name_ok(src, false),
        names_ok(dst, false),
        dst.len() > 0,
        props_ok(props),
        closes(body, 1),
    ensures
        header(start_pos(header_text(minor, src, dst, props) + body)).0 == Ok::<
            SpecHeader,
            SpecErrorKind,
        >(SpecHeader { src, dst, props: fold_props(Seq::empty(), props) }),
        at(header(start_pos(header_text(minor, src, dst, props) + body)).1, body),
{
    let h = header_content(minor, src, dst);
    let x = header_text(minor, src, dst, props) + body;
    let rest = props_text(props) + body;
    let two = decimal(2);
    let m = decimal(minor as nat);
    assert(two =~= seq![0x32u8]);
    let r3 = src + names_text(dst, false);
    let r2 = m + seq![SEPARATOR] + r3;
    let r1 = two + seq![SEPARATOR] + r2;
    assert(h =~= tiny_word() + seq![SEPARATOR] + r1);
    // The header line is one tight line at depth zero.
    lemma_letter_tight(0x74u8);
    assert(tight(tiny_word())) by {
        assert forall|i: int| 0 <= i < 4 implies #[trigger] tiny_word()[i] != 0x0au8 by {}
    }
    lemma_decimal_tight(2);
    lemma_decimal_tight(minor as nat);
    lemma_name_tight(src, false);
    lemma_tight_sep(tiny_word(), two);
    lemma_tight_sep(tiny_word() + seq![SEPARATOR] + two, m);
    lemma_tight_sep(tiny_word() + seq![SEPARATOR] + two + seq![SEPARATOR] + m, src);
    lemma_names_tight(
        tiny_word() + seq![SEPARATOR] + two + seq![SEPARATOR] + m + seq![SEPARATOR] + src,
        dst,
        false,
    );
    assert(h =~= tiny_word() + seq![SEPARATOR] + two + seq![SEPARATOR] + m + seq![SEPARATOR] + src
        + names_text(dst, false));
    lemma_indented_line(0, h);
    assert(tabs(0) + h =~= h);
    assert(x =~= h + seq![0x0au8] + rest);
    lemma_line_split(h, rest);
    let p0 = start_pos(x);
    crate::enigma_roundtrip::lemma_take_line(p0.st);
    let st0 = line_state(x);
    // The columns of the header line.
    assert(lacks_byte(tiny_word(), SEPARATOR));
    lemma_col_split(st0, tiny_word(), r1);
    let st1 = ColState { line: Some(r1), last_col: Some(tiny_word()), ..st0 };
    lemma_col_split(st1, two, r2);
    let st2 = ColState { line: Some(r2), last_col: Some(two), ..st0 };
    crate::text::lemma_decimal_ascii(2);
    crate::text::lemma_decimal_reads_back(2, u16::MAX as nat);
    assert(take_version(st1, "major-version") == (Ok::<u16, SpecErrorKind>(2u16), st2));
    lemma_col_split(st2, m, r3);
    let st3 = ColState { line: Some(r3), last_col: Some(m), ..st0 };
    crate::text::lemma_decimal_ascii(minor as nat);
    crate::text::lemma_decimal_reads_back(minor as nat, u16::MAX as nat);
    assert(take_version(st2, "minor-version") == (Ok::<u16, SpecErrorKind>(minor), st3));
    lemma_take_names(st3, src, dst, false, "namespace-a");
    let st4 = take_names(st3, false, "namespace-a").1;
    assert(header_line(st0).0 == Ok::<(Seq<u8>, Seq<Seq<u8>>), SpecErrorKind>((src, dst)));
    assert(header_line(st0).1 == st4);
    let p2 = Pos { st: st4, fresh: false };
    lemma_props_read(props, Seq::empty(), p2, body);
}

/// Law: a Tiny V2 file written from a header and faithful elements reads back as that header,
/// the properties sorted by key with the last value of each, and as those elements, names
/// escaped exactly where the properties say so.
pub proof fn lemma_tiny2_roundtrip(
    minor: u16,
    src: Seq<u8>,
    dst: Seq<Seq<u8>>,
    props: Seq<(Seq<u8>, Option<Seq<u8>>)>,
    es: Seq<SpecElement>,
)
    requires
        name_ok(src, false),
        names_ok(dst, false),
        dst.len() > 0,
        props_ok(props),
        all_faithful(es, Scope::Top, marks_escaped(props)),
        heights(es) <= usize::MAX,
    ensures
        ({
            let esc = marks_escaped(props);
            let body = emit_all(es, 0, Scope::Top, esc).0;
            let text = header_text(minor, src, dst, props) + body;
            &&& emit_all(es, 0, Scope::Top, esc).1 is None
            &&& header(start_pos(text)).0 == Ok::<SpecHeader, SpecErrorKind>(
                SpecHeader { src, dst, props: fold_props(Seq::empty(), props) },
            )
            &&& file_items(text) == Ok::<Seq<SpecElement>, SpecErrorKind>(es)
        }),
{
    let esc = marks_escaped(props);
    let body = emit_all(es, 0, Scope::Top, esc).0;
    lemma_emit_all_ok(es, 0, Scope::Top, esc);
    assert(closes(Seq::<u8>::empty(), 0));
    lemma_closes_next(es, 0, Scope::Top, esc, Seq::empty());
    assert(body + Seq::<u8>::empty() =~= body);
    lemma_header_read(minor, src, dst, props, body);
    let (hd, p) = header(start_pos(header_text(minor, src, dst, props) + body));
    lemma_fold_lookup(Seq::empty(), props, escaped_names_key());
    assert((lookup(fold_props(Seq::empty(), props), escaped_names_key()) is Some) == esc);
    lemma_items_read(es, 0, Scope::Top, esc, Seq::empty(), p);
}

/// Properties already in key order are kept as they are when folded in after smaller keys.
proof fn lemma_fold_sorted(acc: Seq<(Seq<u8>, Option<Seq<u8>>)>, ps: Seq<(Seq<u8>, Option<Seq<u8>>)>)
    requires
        keys_sorted(acc + ps),
    ensures
        fold_props(acc, ps) == acc + ps,
    decreases ps.len(),
{
    if ps.len() == 0 {
        assert(acc + ps =~= acc);
    } else {
        let all = acc + ps;
        assert(keys_sorted(acc)) by {
            assert forall|i: int, j: int| 0 <= i < j < acc.len() implies crate::bytemap::lex_lt(
                #[trigger] acc[i].0,
                #[trigger] acc[j].0,
            ) by {
                assert(acc[i] == all[i] && acc[j] == all[j]);
            }
        }
        assert forall|j: int| 0 <= j < acc.len() implies crate::bytemap::lex_lt(#[trigger] acc[j].0, ps[0].0) by {
            assert(acc[j] == all[j] && ps[0] == all[acc.len() as int]);
        }
        crate::bytemap::lemma_insert_last(acc, ps[0].0, ps[0].1);
        let acc2 = acc.push(ps[0]);
        assert(acc2 + ps.drop_first() =~= all);
        lemma_fold_sorted(acc2, ps.drop_first());
    }
}

/// Law: reading a Tiny V2 file that the writer wrote, properties in key order, and writing back
/// the header and elements read gives the file again.
pub proof fn lemma_tiny2_read_write(
    minor: u16,
    src: Seq<u8>,
    dst: Seq<Seq<u8>>,
    props: Seq<(Seq<u8>, Option<Seq<u8>>)>,
    es: Seq<SpecElement>,
)
    requires
        name_ok(src, false),
        names_ok(dst, false),
        dst.len() > 0,
        props_ok(props),
        keys_sorted(props),
        all_faithful(es, Scope::Top, marks_escaped(props)),
        heights(es) <= usize::MAX,
    ensures
        ({
            let text = header_text(minor, src, dst, props) + emit_all(es, 0, Scope::Top, marks_escaped(props)).0;
            header(start_pos(text)).0 matches Ok(hd) && file_items(text) matches Ok(read) && {
                &&& emit_all(read, 0, Scope::Top, marks_escaped(hd.props)).1 is None
                &&& header_text(minor, hd.src, hd.dst, hd.props) + emit_all(
                    read,
                    0,
                    Scope::Top,
                    marks_escaped(hd.props),
                ).0 == text
            }
        }),
{
    lemma_tiny2_roundtrip(minor, src, dst, props, es);
    assert(Seq::<(Seq<u8>, Option<Seq<u8>>)>::empty() + props =~= props);
    lemma_fold_sorted(Seq::empty(), props);
}

} // verus!
