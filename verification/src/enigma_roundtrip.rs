//! What an Enigma file gives back of what the serializer wrote.
//!
//! Reading the text that `emit_all` describes yields the same elements, for every element
//! sequence whose names can stand in a column: the laws here follow the reader line by line
//! through the written text.
use vstd::prelude::*;
use vstd::utf8::valid_utf8;
use crate::bytes::{
    find_byte, is_ascii_ws, leading_count, lemma_find_byte, lemma_find_byte_at, split_once,
    trim_ascii, trim_end, trim_start,
};
use crate::cursor::{
    col_at, cols_of, fetch, lemma_read_cols_cols, lemma_slice_progress, measure, next_pos,
    slice_next_line, slice_skip_blank, split_cols, Pos,
};
use crate::element::SpecElement;
use crate::error::SpecErrorKind;
use crate::enigma::{
    comment_entries, dash, emit, emit_all, entry_element, first_or_dash, height, heights, is_entry,
    item, items, kw_arg, kw_class, kw_comment, kw_field, kw_method, lemma_heights, lv_column,
    opt_list, tabs, text_lines, INDENT, SEPARATOR,
};
use crate::io::{
    line_content, slice_chunk, slice_rest_after, spec_read_col, spec_read_cols, ColState,
};
use crate::proguard::start_pos;
use crate::strs::has_prefix;
use crate::text::{int_text, lemma_decimal_ascii, lemma_decimal_reads_back};

verus! {

/// The line-ending byte.
pub open spec fn newline() -> u8 {
    0x0au8
}

/// Whether `s` holds no line ending.
pub open spec fn one_line(s: Seq<u8>) -> bool {
    forall|i: int| 0 <= i < s.len() ==> #[trigger] s[i] != newline()
}

/// Splitting `l`, a newline and `r` at the first newline gives `l` and `r`.
pub proof fn lemma_line_split(l: Seq<u8>, r: Seq<u8>)
    requires
        one_line(l),
    ensures
        slice_chunk(l + seq![newline()] + r, newline()) == l,
        slice_rest_after(l + seq![newline()] + r, newline()) == r,
{
    let x = l + seq![newline()] + r;
    assert forall|j: int| 0 <= j < l.len() implies x[j] != newline() by {
        assert(x[j] == l[j]);
    }
    lemma_find_byte_at(x, newline(), l.len() as int);
    assert(x.subrange(0, l.len() as int) =~= l);
    assert(x.subrange(l.len() as int + 1, x.len() as int) =~= r);
}

/// Leading indentation bytes before a line that starts with another byte are counted exactly.
pub proof fn lemma_leading_tabs(k: nat, b: Seq<u8>)
    requires
        b.len() > 0,
        b[0] != INDENT,
    ensures
        leading_count(tabs(k) + b, INDENT) == k,
    decreases k,
{
    if k == 0 {
        assert(tabs(0) + b =~= b);
    } else {
        let s = tabs(k) + b;
        assert(s[0] == INDENT);
        assert(s.drop_first() =~= tabs((k - 1) as nat) + b);
        lemma_leading_tabs((k - 1) as nat, b);
    }
}

/// A text that neither starts nor ends with whitespace is its own trimmed form.
pub proof fn lemma_trim_tight(b: Seq<u8>)
    requires
        b.len() > 0,
        !is_ascii_ws(b[0]),
        !is_ascii_ws(b.last()),
    ensures
        trim_ascii(b) == b,
{
    assert(trim_start(b) == b);
    assert(trim_end(b) == b);
}

/// The content of an indented line: the indentation counted, the rest kept as it is.
pub proof fn lemma_indented_line(k: nat, b: Seq<u8>)
    requires
        b.len() > 0,
        !is_ascii_ws(b[0]),
        !is_ascii_ws(b.last()),
    ensures
        leading_count(tabs(k) + b, INDENT) == k,
        line_content(tabs(k) + b, INDENT) == b,
{
    lemma_leading_tabs(k, b);
    let s = tabs(k) + b;
    assert(s.subrange(k as int, s.len() as int) =~= b);
    lemma_trim_tight(b);
}

/// Whether `s` holds no column separator.
pub open spec fn one_col(s: Seq<u8>) -> bool {
    forall|i: int| 0 <= i < s.len() ==> #[trigger] s[i] != SEPARATOR
}

/// A column, a separator and the rest split into the column and the columns of the rest.
pub proof fn lemma_split_first(a: Seq<u8>, rest: Seq<u8>)
    requires
        one_col(a),
    ensures
        split_cols(a + seq![SEPARATOR] + rest, SEPARATOR) == seq![a] + split_cols(rest, SEPARATOR),
        split_once(a + seq![SEPARATOR] + rest, SEPARATOR) == Some((a, rest)),
{
    let x = a + seq![SEPARATOR] + rest;
    assert forall|j: int| 0 <= j < a.len() implies x[j] != SEPARATOR by {
        assert(x[j] == a[j]);
    }
    lemma_find_byte_at(x, SEPARATOR, a.len() as int);
    assert(x.subrange(0, a.len() as int) =~= a);
    assert(x.subrange(a.len() as int + 1, x.len() as int) =~= rest);
}

/// A non-empty text without separator is a single column.
pub proof fn lemma_split_single(c: Seq<u8>)
    requires
        c.len() > 0,
        one_col(c),
    ensures
        split_cols(c, SEPARATOR) == seq![c],
        split_once(c, SEPARATOR) is None,
{
    lemma_find_byte(c, SEPARATOR);
    if let Some(i) = find_byte(c, SEPARATOR) {
        assert(c[i] != SEPARATOR);
    }
}

/// The reader's state once the first line of `x` was taken.
pub open spec fn line_state(x: Seq<u8>) -> ColState {
    ColState {
        rest: slice_rest_after(x, newline()),
        line: Some(line_content(slice_chunk(x, newline()), INDENT)),
        indent: Some(leading_count(slice_chunk(x, newline()), INDENT) as usize),
        last_col: None,
    }
}

/// Whether the reader stands before the text `x`: either nothing of `x` was read, or its
/// first line was just taken and is untouched.
pub open spec fn at(p: Pos, x: Seq<u8>) -> bool {
    ||| (!p.fresh && p.st.rest == x)
    ||| (x.len() > 0 && p == Pos { st: line_state(x), fresh: true })
}

/// Whether the first line of `x` has content.
pub open spec fn opens(x: Seq<u8>) -> bool {
    line_content(slice_chunk(x, newline()), INDENT).len() > 0
}

/// The indentation depth of the first line of `x`.
pub open spec fn first_depth(x: Seq<u8>) -> nat {
    leading_count(slice_chunk(x, newline()), INDENT)
}

/// Whether the text `s` ends the items at depth `k`: it is empty, or its first line has content
/// and stands shallower.
pub open spec fn closes(s: Seq<u8>, k: nat) -> bool {
    s.len() == 0 || (opens(s) && first_depth(s) < k)
}

/// Taking the first line of `x` when it has content.
pub proof fn lemma_take_line(st: ColState)
    requires
        opens(st.rest),
    ensures
        slice_next_line(st, INDENT) == (
            Some(first_depth(st.rest) as usize),
            line_state(st.rest),
        ),
        slice_skip_blank(st, INDENT) == (
            Some(first_depth(st.rest) as usize),
            line_state(st.rest),
            1nat,
        ),
{
    let chunk = slice_chunk(st.rest, newline());
    if chunk.len() == 0 {
        assert(chunk.subrange(0, 0) =~= Seq::<u8>::empty());
        assert(trim_start(Seq::<u8>::empty()) == Seq::<u8>::empty());
        assert(trim_end(Seq::<u8>::empty()) == Seq::<u8>::empty());
    }
}

/// The reader finds the first line of `x` when it stands at the depth sought.
pub proof fn lemma_fetch_open(p: Pos, x: Seq<u8>, k: usize)
    requires
        at(p, x),
        opens(x),
        first_depth(x) == k,
    ensures
        fetch(p, k, INDENT, false) == (true, Pos { st: line_state(x), fresh: true }),
{
    if !p.fresh {
        lemma_take_line(p.st);
        assert(next_pos(p, INDENT) == (Some(k), Pos { st: line_state(x), fresh: true }));
    }
}

/// The reader stops before a text that closes depth `k`, and still stands before it.
pub proof fn lemma_fetch_close(p: Pos, s: Seq<u8>, k: usize)
    requires
        at(p, s),
        closes(s, k as nat),
    ensures
        !fetch(p, k, INDENT, false).0,
        at(fetch(p, k, INDENT, false).1, s),
{
    if s.len() == 0 {
        lemma_find_byte(s, newline());
        assert(slice_chunk(s, newline()).len() == 0);
        assert(slice_rest_after(s, newline()).len() == 0);
        let (r, st2) = slice_next_line(p.st, INDENT);
        assert(r is None && st2.rest.len() == 0);
        assert(slice_skip_blank(p.st, INDENT) == (r, st2, 0nat));
        assert(next_pos(p, INDENT) == (r, Pos { st: st2, fresh: false }));
        assert(st2.rest =~= s);
    } else if !p.fresh {
        lemma_take_line(p.st);
        assert(fetch(p, k, INDENT, false).1 == Pos { st: line_state(s), fresh: true });
    }
}

/// A name that a column holds as it is: non-empty UTF-8 without whitespace.
pub open spec fn plain(s: Seq<u8>) -> bool {
    &&& s.len() > 0
    &&& valid_utf8(s)
    &&& forall|i: int| 0 <= i < s.len() ==> !is_ascii_ws(#[trigger] s[i])
}

/// Destination names that a column holds: none, or one plain name other than `-`.
pub open spec fn plain_dst(dst: Seq<Seq<u8>>) -> bool {
    dst.len() <= 1 && (dst.len() == 1 ==> plain(dst[0]) && dst[0] != dash())
}

/// A comment that one comment line holds: non-empty UTF-8 on one line, not ending in whitespace.
pub open spec fn plain_comment(c: Seq<u8>) -> bool {
    &&& c.len() > 0
    &&& valid_utf8(c)
    &&& one_line(c)
    &&& !is_ascii_ws(c.last())
}

/// Whether an Enigma file holds `e` faithfully: every name plain, one destination name at most,
/// descriptors present and no destination descriptors, arguments known by their local variable
/// index alone, comments of one line, and no local variables.
pub open spec fn faithful(e: SpecElement) -> bool
    decreases e,
{
    match e {
        SpecElement::Class { src, dst, content } => plain(src) && plain_dst(dst) && all_faithful(
            content,
        ),
        SpecElement::Field { src, dst, desc, dst_desc, content } => plain(src) && plain_dst(dst)
            && (desc matches Some(d) && plain(d)) && dst_desc is None && all_faithful(content),
        SpecElement::Method { src, dst, desc, dst_desc, content } => plain(src) && plain_dst(dst)
            && (desc matches Some(d) && plain(d)) && dst_desc is None && all_faithful(content),
        SpecElement::MethodArg { src, dst, pos, lv_index, content } => src is None && pos is None
            && (lv_index matches Some(i) && i <= i32::MAX) && (dst matches Some(d) ==> d.len() == 1
            && plain_dst(d)) && all_faithful(content),
        SpecElement::MethodVar { .. } => false,
        SpecElement::Comment(c) => plain_comment(c),
    }
}

/// Whether an Enigma file holds every element of `es` faithfully.
pub open spec fn all_faithful(es: Seq<SpecElement>) -> bool
    decreases es,
{
    es.len() == 0 || (faithful(es[0]) && all_faithful(es.subrange(1, es.len() as int)))
}

/// The line of an element after its indentation, without the line ending.
pub open spec fn entry_text(e: SpecElement) -> Seq<u8> {
    match e {
        SpecElement::Class { src, dst, .. } => kw_class() + seq![SEPARATOR] + src + seq![SEPARATOR]
            + first_or_dash(dst),
        SpecElement::Field { src, dst, desc, .. } => kw_field() + seq![SEPARATOR] + src + seq![
            SEPARATOR,
        ] + first_or_dash(dst) + seq![SEPARATOR] + desc.unwrap(),
        SpecElement::Method { src, dst, desc, .. } => kw_method() + seq![SEPARATOR] + src + seq![
            SEPARATOR,
        ] + first_or_dash(dst) + seq![SEPARATOR] + desc.unwrap(),
        SpecElement::MethodArg { dst, lv_index, .. } => kw_arg() + seq![SEPARATOR] + int_text(
            lv_column(lv_index),
        ) + seq![SEPARATOR] + first_or_dash(
            match dst {
                Some(d) => d,
                None => Seq::empty(),
            },
        ),
        SpecElement::Comment(c) => kw_comment() + seq![SEPARATOR] + c,
        SpecElement::MethodVar { .. } => Seq::empty(),
    }
}

/// The elements written below an element.
pub open spec fn content_of(e: SpecElement) -> Seq<SpecElement> {
    match e {
        SpecElement::Class { content, .. } => content,
        SpecElement::Field { content, .. } => content,
        SpecElement::Method { content, .. } => content,
        SpecElement::MethodArg { content, .. } => content,
        SpecElement::MethodVar { content, .. } => content,
        SpecElement::Comment(_) => Seq::empty(),
    }
}

/// A faithful element is written as its line, then its content one level deeper, and nothing
/// goes wrong.
pub proof fn lemma_emit_shape(e: SpecElement, k: nat)
    requires
        faithful(e),
    ensures
        emit(e, k).0 == tabs(k) + entry_text(e) + seq![newline()] + emit_all(content_of(e), k + 1).0,
        emit(e, k).1 is None,
    decreases e, 1nat,
{
    match e {
        SpecElement::Comment(c) => {
            lemma_find_byte(c, newline());
            assert(text_lines(c) == seq![c]);
            assert(seq![c].drop_first() =~= Seq::<Seq<u8>>::empty());
            assert(comment_entries(k, Seq::<Seq<u8>>::empty()) == Seq::<u8>::empty());
            assert(seq![c][0] == c);
            assert(comment_entries(k, seq![c]) =~= tabs(k) + entry_text(e) + seq![newline()]);
            assert(emit_all(Seq::<SpecElement>::empty(), (k + 1) as nat).0 == Seq::<u8>::empty());
            assert(emit(e, k).0 =~= tabs(k) + entry_text(e) + seq![newline()] + Seq::<u8>::empty());
        },
        SpecElement::Class { content, .. } => {
            lemma_emit_all_ok(content, k + 1);
        },
        SpecElement::Field { content, .. } => {
            lemma_emit_all_ok(content, k + 1);
        },
        SpecElement::Method { content, .. } => {
            lemma_emit_all_ok(content, k + 1);
        },
        SpecElement::MethodArg { content, .. } => {
            lemma_emit_all_ok(content, k + 1);
        },
        SpecElement::MethodVar { .. } => {},
    }
}

/// Writing faithful elements goes through without error.
pub proof fn lemma_emit_all_ok(es: Seq<SpecElement>, k: nat)
    requires
        all_faithful(es),
    ensures
        emit_all(es, k).1 is None,
    decreases es, 0nat,
{
    if es.len() > 0 {
        lemma_emit_shape(es[0], k);
        lemma_emit_all_ok(es.subrange(1, es.len() as int), k);
    }
}

/// Before a line, the reader has more to go than anywhere after it.
pub proof fn lemma_measure_line(p: Pos, l: Seq<u8>, r: Seq<u8>)
    requires
        one_line(l),
        at(p, l + seq![newline()] + r),
    ensures
        2 * r.len() < measure(p),
{
    lemma_line_split(l, r);
}

/// Standing before `y` leaves at most all of `y` to go.
pub proof fn lemma_measure_at(q: Pos, y: Seq<u8>)
    requires
        at(q, y),
    ensures
        measure(q) <= 2 * y.len(),
{
    lemma_slice_progress(y, newline());
}

/// One-line texts stay one line when joined.
pub proof fn lemma_one_line_cat(a: Seq<u8>, b: Seq<u8>)
    requires
        one_line(a),
        one_line(b),
    ensures
        one_line(a + b),
{
    assert forall|i: int| 0 <= i < (a + b).len() implies #[trigger] (a + b)[i] != newline() by {
        if i < a.len() {
            assert((a + b)[i] == a[i]);
        } else {
            assert((a + b)[i] == b[i - a.len()]);
        }
    }
}

/// A plain name holds neither line ending nor separator.
pub proof fn lemma_plain(s: Seq<u8>)
    requires
        plain(s),
    ensures
        one_line(s),
        one_col(s),
        !is_ascii_ws(s[0]),
        !is_ascii_ws(s.last()),
{
    assert forall|i: int| 0 <= i < s.len() implies #[trigger] s[i] != newline() by {
        assert(!is_ascii_ws(s[i]));
    }
    assert forall|i: int| 0 <= i < s.len() implies #[trigger] s[i] != SEPARATOR by {
        assert(!is_ascii_ws(s[i]));
    }
    assert(!is_ascii_ws(s[s.len() - 1]));
}

/// The column for destination names: one plain name or `-`.
pub proof fn lemma_dst_column(dst: Seq<Seq<u8>>)
    requires
        plain_dst(dst),
    ensures
        first_or_dash(dst).len() > 0,
        one_line(first_or_dash(dst)),
        one_col(first_or_dash(dst)),
        !is_ascii_ws(first_or_dash(dst).last()),
        valid_utf8(first_or_dash(dst)) || first_or_dash(dst) == dash(),
        opt_list(if first_or_dash(dst) == dash() { None } else { Some(first_or_dash(dst)) }) == dst,
{
    if dst.len() == 1 {
        lemma_plain(dst[0]);
        assert(seq![dst[0]] =~= dst);
    } else {
        assert(dash()[0] == 0x2du8);
        assert(dst =~= Seq::<Seq<u8>>::empty());
    }
}

/// The local variable index column of a faithful argument: its decimal digits.
pub proof fn lemma_lv_column(i: usize)
    requires
        i <= i32::MAX,
    ensures
        int_text(lv_column(Some(i))) == crate::text::decimal(i as nat),
        int_text(lv_column(Some(i))).len() > 0,
        one_line(int_text(lv_column(Some(i)))),
        one_col(int_text(lv_column(Some(i)))),
        valid_utf8(int_text(lv_column(Some(i)))),
        crate::text::parse_nonneg_isize(int_text(lv_column(Some(i)))) == Some(i as nat),
{
    assert((i as i32) as int == i as int);
    let d = crate::text::decimal(i as nat);
    crate::text::lemma_decimal_digits(i as nat);
    lemma_decimal_ascii(i as nat);
    lemma_decimal_reads_back(i as nat, i as nat);
    assert forall|j: int| 0 <= j < d.len() implies #[trigger] d[j] != newline() by {
        assert(0x30u8 <= d[j] <= 0x39u8);
    }
    assert forall|j: int| 0 <= j < d.len() implies #[trigger] d[j] != SEPARATOR by {
        assert(0x30u8 <= d[j] <= 0x39u8);
    }
}

/// Keywords are one line of letters without separator.
pub proof fn lemma_keywords()
    ensures
        one_line(kw_class()) && one_col(kw_class()),
        one_line(kw_field()) && one_col(kw_field()),
        one_line(kw_method()) && one_col(kw_method()),
        one_line(kw_arg()) && one_col(kw_arg()),
        one_line(kw_comment()) && one_col(kw_comment()),
        one_line(seq![SEPARATOR]),
        kw_class() != kw_comment() && kw_field() != kw_comment() && kw_method() != kw_comment()
            && kw_arg() != kw_comment(),
        kw_class() != kw_arg() && kw_field() != kw_arg() && kw_method() != kw_arg(),
        kw_class() != kw_field() && kw_method() != kw_field() && kw_class() != kw_method(),
{
    assert(kw_class().len() == 5 && kw_comment().len() == 7 && kw_arg().len() == 3);
    assert(kw_field().len() == 5 && kw_method().len() == 6);
    assert(kw_class()[0] != kw_field()[0]);
}

/// Two one-line texts joined by a separator: one line, from the first byte of the first to the
/// last byte of the second.
pub proof fn lemma_joined(a: Seq<u8>, b: Seq<u8>)
    requires
        one_line(a),
        one_line(b),
        a.len() > 0,
        b.len() > 0,
    ensures
        one_line(a + seq![SEPARATOR] + b),
        (a + seq![SEPARATOR] + b).len() > 0,
        (a + seq![SEPARATOR] + b)[0] == a[0],
        (a + seq![SEPARATOR] + b).last() == b.last(),
{
    lemma_keywords();
    lemma_one_line_cat(a, seq![SEPARATOR]);
    lemma_one_line_cat(a + seq![SEPARATOR], b);
}

/// The line of a faithful element has content, ends without whitespace, starts with a letter
/// and holds no line ending.
pub proof fn lemma_entry_text(e: SpecElement)
    requires
        faithful(e),
    ensures
        entry_text(e).len() > 0,
        !is_ascii_ws(entry_text(e)[0]),
        !is_ascii_ws(entry_text(e).last()),
        one_line(entry_text(e)),
{
    lemma_keywords();
    match e {
        SpecElement::Class { src, dst, .. } => {
            lemma_plain(src);
            lemma_dst_column(dst);
            lemma_joined(kw_class(), src);
            lemma_joined(kw_class() + seq![SEPARATOR] + src, first_or_dash(dst));
        },
        SpecElement::Field { src, dst, desc, .. } => {
            lemma_plain(src);
            lemma_plain(desc.unwrap());
            lemma_dst_column(dst);
            lemma_joined(kw_field(), src);
            lemma_joined(kw_field() + seq![SEPARATOR] + src, first_or_dash(dst));
            lemma_joined(
                kw_field() + seq![SEPARATOR] + src + seq![SEPARATOR] + first_or_dash(dst),
                desc.unwrap(),
            );
        },
        SpecElement::Method { src, dst, desc, .. } => {
            lemma_plain(src);
            lemma_plain(desc.unwrap());
            lemma_dst_column(dst);
            lemma_joined(kw_method(), src);
            lemma_joined(kw_method() + seq![SEPARATOR] + src, first_or_dash(dst));
            lemma_joined(
                kw_method() + seq![SEPARATOR] + src + seq![SEPARATOR] + first_or_dash(dst),
                desc.unwrap(),
            );
        },
        SpecElement::MethodArg { dst, lv_index, .. } => {
            let ds = match dst {
                Some(d) => d,
                None => Seq::<Seq<u8>>::empty(),
            };
            lemma_dst_column(ds);
            lemma_lv_column(lv_index.unwrap());
            lemma_joined(kw_arg(), int_text(lv_column(lv_index)));
            lemma_joined(kw_arg() + seq![SEPARATOR] + int_text(lv_column(lv_index)), first_or_dash(ds));
        },
        SpecElement::Comment(c) => {
            lemma_joined(kw_comment(), c);
        },
        SpecElement::MethodVar { .. } => {},
    }
}

/// The first line of what a faithful element writes, and where the reader stands after it.
pub proof fn lemma_entry_line(e: SpecElement, k: nat, y: Seq<u8>)
    requires
        faithful(e),
    ensures
        ({
            let x = emit(e, k).0 + y;
            let body = emit_all(content_of(e), k + 1).0;
            &&& opens(x)
            &&& first_depth(x) == k
            &&& line_state(x) == (ColState {
                rest: body + y,
                line: Some(entry_text(e)),
                indent: Some(k as usize),
                last_col: None,
            })
            &&& x == (tabs(k) + entry_text(e)) + seq![newline()] + (body + y)
            &&& one_line(tabs(k) + entry_text(e))
        }),
{
    lemma_emit_shape(e, k);
    lemma_entry_text(e);
    let t = entry_text(e);
    let body = emit_all(content_of(e), k + 1).0;
    let x = emit(e, k).0 + y;
    lemma_indented_line(k, t);
    assert(x =~= (tabs(k) + t) + seq![newline()] + (body + y));
    assert(one_line(tabs(k))) by {
        assert forall|i: int| 0 <= i < tabs(k).len() implies #[trigger] tabs(k)[i] != newline() by {}
    }
    lemma_one_line_cat(tabs(k), t);
    lemma_line_split(tabs(k) + t, body + y);
}

/// Writing faithful elements: the first one, then the others.
pub proof fn lemma_emit_all_cons(es: Seq<SpecElement>, k: nat)
    requires
        all_faithful(es),
        es.len() > 0,
    ensures
        emit_all(es, k).0 == emit(es[0], k).0 + emit_all(es.subrange(1, es.len() as int), k).0,
        all_faithful(es.subrange(1, es.len() as int)),
        faithful(es[0]),
        heights(es.subrange(1, es.len() as int)) <= heights(es),
        height(es[0]) <= heights(es),
{
    lemma_emit_shape(es[0], k);
    lemma_heights(es, 0);
}

/// After faithful elements at depth `k`, the text that closes depth `k` closes the deeper level.
pub proof fn lemma_closes_next(es: Seq<SpecElement>, k: nat, s: Seq<u8>)
    requires
        all_faithful(es),
        closes(s, k),
    ensures
        closes(emit_all(es, k).0 + s, k + 1),
{
    if es.len() == 0 {
        assert(emit_all(es, k).0 + s =~= s);
    } else {
        lemma_emit_all_cons(es, k);
        let rest = emit_all(es.subrange(1, es.len() as int), k).0 + s;
        assert(emit_all(es, k).0 + s =~= emit(es[0], k).0 + rest);
        lemma_entry_line(es[0], k, rest);
    }
}

/// Reading at depth `k` before what a faithful element wrote, followed by a text that closes
/// the level below: the element comes back, and the reader stands before the text.
pub proof fn lemma_item_reads(e: SpecElement, k: usize, s: Seq<u8>, p: Pos)
    requires
        faithful(e),
        k + height(e) <= usize::MAX,
        closes(s, (k + 1) as nat),
        at(p, emit(e, k as nat).0 + s),
    ensures
        item(p, k).0 == Ok::<Option<SpecElement>, SpecErrorKind>(Some(e)),
        at(item(p, k).1, s),
    decreases e, 2nat,
{
    let x = emit(e, k as nat).0 + s;
    lemma_entry_line(e, k as nat, s);
    lemma_fetch_open(p, x, k);
    lemma_keywords();
    match e {
        SpecElement::Comment(c) => {
            lemma_split_first(kw_comment(), c);
            assert(entry_text(e) == kw_comment() + seq![SEPARATOR] + c);
            let st1 = line_state(x);
            let (col, st2) = spec_read_col(st1, SEPARATOR);
            assert(col == Some(kw_comment()));
            assert(emit_all(Seq::<SpecElement>::empty(), (k + 1) as nat).0 == Seq::<u8>::empty());
            assert(st2.rest =~= s);
            assert(!has_prefix(kw_comment(), seq![0x23u8])) by {
                assert(kw_comment().subrange(0, 1)[0] != seq![0x23u8][0]);
            }
        },
        _ => {
            lemma_entry_reads(e, k, s, p);
        },
    }
}

/// The columns after the keyword of a faithful entry, and the element they make.
pub open spec fn entry_tail(e: SpecElement) -> Seq<u8> {
    match e {
        SpecElement::Class { src, dst, .. } => src + seq![SEPARATOR] + first_or_dash(dst),
        SpecElement::Field { src, dst, desc, .. } => src + seq![SEPARATOR] + first_or_dash(dst)
            + seq![SEPARATOR] + desc.unwrap(),
        SpecElement::Method { src, dst, desc, .. } => src + seq![SEPARATOR] + first_or_dash(dst)
            + seq![SEPARATOR] + desc.unwrap(),
        SpecElement::MethodArg { dst, lv_index, .. } => int_text(lv_column(lv_index)) + seq![
            SEPARATOR,
        ] + first_or_dash(
            match dst {
                Some(d) => d,
                None => Seq::empty(),
            },
        ),
        _ => Seq::empty(),
    }
}

/// The keyword of an entry.
pub open spec fn entry_kw(e: SpecElement) -> Seq<u8> {
    match e {
        SpecElement::Class { .. } => kw_class(),
        SpecElement::Field { .. } => kw_field(),
        SpecElement::Method { .. } => kw_method(),
        SpecElement::MethodArg { .. } => kw_arg(),
        SpecElement::MethodVar { .. } => Seq::empty(),
        SpecElement::Comment(_) => kw_comment(),
    }
}

/// What the columns of a faithful entry promise: they give back the element, whatever content
/// is read below it.
pub open spec fn cols_give_back(e: SpecElement) -> bool {
    &&& entry_text(e) == entry_kw(e) + seq![SEPARATOR] + entry_tail(e)
    &&& entry_element(entry_kw(e), split_cols(entry_tail(e), SEPARATOR), Seq::empty()) is Ok
    &&& entry_element(entry_kw(e), split_cols(entry_tail(e), SEPARATOR), content_of(e)) == Ok::<
        SpecElement,
        SpecErrorKind,
    >(e)
}

#[verifier::spinoff_prover]
proof fn lemma_class_cols(e: SpecElement)
    requires
        faithful(e),
        e is Class,
    ensures
        cols_give_back(e),
{
    lemma_keywords();
    if let SpecElement::Class { src, dst, content } = e {
        let f = first_or_dash(dst);
        lemma_plain(src);
        lemma_dst_column(dst);
        lemma_split_first(src, f);
        lemma_split_single(f);
        assert(split_cols(entry_tail(e), SEPARATOR) =~= seq![src, f]);
        let cols = seq![src, f];
        assert(entry_text(e) =~= entry_kw(e) + seq![SEPARATOR] + entry_tail(e));
        assert(col_at(cols, 0) == Some(src));
        assert(col_at(cols, 1) == Some(f));
        assert(crate::enigma::field_bytes(Some(src), "class-name-a") == Ok::<Seq<u8>, SpecErrorKind>(src));
        let o = if f == dash() { None } else { Some(f) };
        assert(crate::enigma::field_bytes_opt(Some(f), "class-name-b") == Ok::<Option<Seq<u8>>, SpecErrorKind>(o));
        assert(entry_element(kw_class(), cols, content) == Ok::<SpecElement, SpecErrorKind>(SpecElement::Class { src, dst: opt_list(o), content }));
    }
}

/// The member an entry of type `kw` makes of the columns `src`, `f`, `d`.
pub open spec fn member_of(
    kw: Seq<u8>,
    src: Seq<u8>,
    dst: Seq<Seq<u8>>,
    d: Seq<u8>,
    content: Seq<SpecElement>,
) -> SpecElement {
    if kw == kw_field() {
        SpecElement::Field { src, dst, desc: Some(d), dst_desc: None, content }
    } else {
        SpecElement::Method { src, dst, desc: Some(d), dst_desc: None, content }
    }
}

/// The three columns of a field or method entry give back its names and descriptor.
#[verifier::spinoff_prover]
proof fn lemma_member_row(
    kw: Seq<u8>,
    src: Seq<u8>,
    dst: Seq<Seq<u8>>,
    d: Seq<u8>,
    content: Seq<SpecElement>,
)
    requires
        kw == kw_field() || kw == kw_method(),
        plain(src),
        plain(d),
        plain_dst(dst),
    ensures
        split_cols(
            src + seq![SEPARATOR] + first_or_dash(dst) + seq![SEPARATOR] + d,
            SEPARATOR,
        ) == seq![src, first_or_dash(dst), d],
        entry_element(kw, seq![src, first_or_dash(dst), d], content) == Ok::<
            SpecElement,
            SpecErrorKind,
        >(member_of(kw, src, dst, d, content)),
{
    lemma_keywords();
    let f = first_or_dash(dst);
    lemma_plain(src);
    lemma_plain(d);
    lemma_dst_column(dst);
    assert(src + seq![SEPARATOR] + f + seq![SEPARATOR] + d =~= src + seq![SEPARATOR] + (f + seq![
        SEPARATOR,
    ] + d));
    lemma_split_first(src, f + seq![SEPARATOR] + d);
    lemma_split_first(f, d);
    lemma_split_single(d);
    let cols = seq![src, f, d];
    assert(split_cols(f + seq![SEPARATOR] + d, SEPARATOR) =~= seq![f, d]);
    assert(col_at(cols, 0) == Some(src));
    assert(col_at(cols, 1) == Some(f));
    assert(col_at(cols, 2) == Some(d));
    let o = if f == dash() {
        None
    } else {
        Some(f)
    };
    assert(crate::enigma::field_bytes(Some(src), "name-a") == Ok::<Seq<u8>, SpecErrorKind>(src));
    assert(crate::enigma::field_bytes(Some(d), "desc-a") == Ok::<Seq<u8>, SpecErrorKind>(d));
    assert(crate::enigma::field_bytes_opt(Some(f), "name-b") == Ok::<
        Option<Seq<u8>>,
        SpecErrorKind,
    >(o));
    assert(kw != kw_class() && kw != kw_arg());
}

#[verifier::spinoff_prover]
proof fn lemma_field_cols(e: SpecElement)
    requires
        faithful(e),
        e is Field,
    ensures
        cols_give_back(e),
{
    let src = e->Field_src;
    let dst = e->Field_dst;
    let d = e->Field_desc.unwrap();
    lemma_member_row(kw_field(), src, dst, d, Seq::empty());
    lemma_member_row(kw_field(), src, dst, d, e->Field_content);
    assert(entry_text(e) =~= entry_kw(e) + seq![SEPARATOR] + entry_tail(e));
}

#[verifier::spinoff_prover]
proof fn lemma_method_cols(e: SpecElement)
    requires
        faithful(e),
        e is Method,
    ensures
        cols_give_back(e),
{
    assert(kw_method().len() == 6 && kw_field().len() == 5);
    let src = e->Method_src;
    let dst = e->Method_dst;
    let d = e->Method_desc.unwrap();
    lemma_member_row(kw_method(), src, dst, d, Seq::empty());
    lemma_member_row(kw_method(), src, dst, d, e->Method_content);
    assert(entry_text(e) =~= entry_kw(e) + seq![SEPARATOR] + entry_tail(e));
}

#[verifier::spinoff_prover]
proof fn lemma_arg_cols(e: SpecElement)
    requires
        faithful(e),
        e is MethodArg,
    ensures
        cols_give_back(e),
{
    lemma_keywords();
    if let SpecElement::MethodArg { dst, lv_index, .. } = e {
        let ds = match dst {
            Some(d) => d,
            None => Seq::<Seq<u8>>::empty(),
        };
        let f = first_or_dash(ds);
        let n = int_text(lv_column(lv_index));
        lemma_dst_column(ds);
        lemma_lv_column(lv_index.unwrap());
        lemma_split_first(n, f);
        lemma_split_single(f);
        let cols = seq![n, f];
        assert(split_cols(entry_tail(e), SEPARATOR) =~= cols);
        assert(entry_text(e) =~= entry_kw(e) + seq![SEPARATOR] + entry_tail(e));
        assert(col_at(cols, 0) == Some(n));
        assert(col_at(cols, 1) == Some(f));
        assert(crate::enigma::field_bytes(Some(n), "lv-index") == Ok::<Seq<u8>, SpecErrorKind>(n));
        let o = if f == dash() {
            None
        } else {
            Some(f)
        };
        assert(crate::enigma::field_bytes_opt(Some(f), "name-b") == Ok::<
            Option<Seq<u8>>,
            SpecErrorKind,
        >(o));
        let i = lv_index.unwrap();
        assert((i as nat) as usize == i);
        if let Some(d) = dst {
            assert(seq![d[0]] =~= d);
            assert(o == Some(d[0]));
        } else {
            assert(o is None);
        }
    }
}

/// The keyword and columns of a faithful entry.
pub proof fn lemma_entry_cols(e: SpecElement)
    requires
        faithful(e),
        !(e is Comment),
    ensures
        cols_give_back(e),
        one_col(entry_kw(e)),
        is_entry(entry_kw(e)),
        entry_kw(e) != kw_comment(),
        !has_prefix(entry_kw(e), seq![0x23u8]),
{
    lemma_keywords();
    assert(entry_kw(e).subrange(0, 1)[0] != seq![0x23u8][0]);
    match e {
        SpecElement::Class { .. } => lemma_class_cols(e),
        SpecElement::MethodArg { .. } => lemma_arg_cols(e),
        SpecElement::Field { .. } => lemma_field_cols(e),
        _ => lemma_method_cols(e),
    }
}

/// Reading a faithful entry (not a comment): its line, then its content one level deeper.
pub proof fn lemma_entry_reads(e: SpecElement, k: usize, s: Seq<u8>, p: Pos)
    requires
        faithful(e),
        !(e is Comment),
        k + height(e) <= usize::MAX,
        closes(s, (k + 1) as nat),
        at(p, emit(e, k as nat).0 + s),
    ensures
        item(p, k).0 == Ok::<Option<SpecElement>, SpecErrorKind>(Some(e)),
        at(item(p, k).1, s),
    decreases e, 1nat,
{
    let x = emit(e, k as nat).0 + s;
    let body = emit_all(content_of(e), (k + 1) as nat).0;
    lemma_entry_line(e, k as nat, s);
    lemma_fetch_open(p, x, k);
    lemma_entry_cols(e);
    let ty = entry_kw(e);
    let tail = entry_tail(e);
    lemma_split_first(ty, tail);
    let st1 = line_state(x);
    let (col, st2) = spec_read_col(st1, SEPARATOR);
    assert(col == Some(ty));
    assert(st2.line == Some(tail));
    let cols = cols_of(st2, SEPARATOR);
    lemma_read_cols_cols(st2, SEPARATOR, crate::enigma::entry_width(ty));
    let (cs, st3) = spec_read_cols(st2, SEPARATOR, crate::enigma::entry_width(ty));
    let p3 = Pos { st: st3, fresh: false };
    assert(st3.rest == body + s);
    lemma_measure_line(p, tabs(k as nat) + entry_text(e), body + s);
    assert(measure(p3) < measure(p));
    assert(k < usize::MAX);
    match e {
        SpecElement::Class { content, .. } => {
            lemma_items_read(content, (k + 1) as usize, s, p3);
        },
        SpecElement::Field { content, .. } => {
            lemma_items_read(content, (k + 1) as usize, s, p3);
        },
        SpecElement::Method { content, .. } => {
            lemma_items_read(content, (k + 1) as usize, s, p3);
        },
        SpecElement::MethodArg { content, .. } => {
            lemma_items_read(content, (k + 1) as usize, s, p3);
        },
        _ => {},
    }
}

/// Reading at depth `k` before what faithful elements wrote, followed by a text that closes
/// depth `k`: the elements come back, and the reader stands before the text.
pub proof fn lemma_items_read(es: Seq<SpecElement>, k: usize, s: Seq<u8>, p: Pos)
    requires
        all_faithful(es),
        k + heights(es) <= usize::MAX,
        closes(s, k as nat),
        at(p, emit_all(es, k as nat).0 + s),
    ensures
        items(p, k).0 == Ok::<Seq<SpecElement>, SpecErrorKind>(es),
        at(items(p, k).1, s),
    decreases es, 0nat,
{
    if es.len() == 0 {
        assert(emit_all(es, k as nat).0 + s =~= s);
        lemma_fetch_close(p, s, k);
        assert(es =~= Seq::<SpecElement>::empty());
    } else {
        let rest = es.subrange(1, es.len() as int);
        lemma_emit_all_cons(es, k as nat);
        let s2 = emit_all(rest, k as nat).0 + s;
        assert(emit_all(es, k as nat).0 + s =~= emit(es[0], k as nat).0 + s2);
        lemma_closes_next(rest, k as nat, s);
        lemma_item_reads(es[0], k, s2, p);
        let p2 = item(p, k).1;
        lemma_entry_line(es[0], k as nat, s2);
        lemma_measure_line(
            p,
            tabs(k as nat) + entry_text(es[0]),
            emit_all(content_of(es[0]), (k + 1) as nat).0 + s2,
        );
        lemma_measure_at(p2, s2);
        lemma_items_read(rest, k, s, p2);
        assert(seq![es[0]] + rest =~= es);
    }
}

/// Law: an Enigma file written from faithful elements reads back as those elements, every
/// top-level item with its content, in order.
pub proof fn lemma_enigma_roundtrip(es: Seq<SpecElement>)
    requires
        all_faithful(es),
        heights(es) <= usize::MAX,
    ensures
        emit_all(es, 0).1 is None,
        items(start_pos(emit_all(es, 0).0), 0).0 == Ok::<Seq<SpecElement>, SpecErrorKind>(es),
{
    lemma_emit_all_ok(es, 0);
    let t = emit_all(es, 0).0;
    assert(t + Seq::<u8>::empty() =~= t);
    lemma_items_read(es, 0, Seq::empty(), start_pos(t));
}

/// Law: the first item of an Enigma file written from one faithful element is that element.
pub proof fn lemma_enigma_item_roundtrip(e: SpecElement)
    requires
        faithful(e),
        height(e) <= usize::MAX,
    ensures
        emit(e, 0).1 is None,
        item(start_pos(emit(e, 0).0), 0).0 == Ok::<Option<SpecElement>, SpecErrorKind>(Some(e)),
{
    lemma_emit_shape(e, 0);
    let t = emit(e, 0).0;
    assert(t + Seq::<u8>::empty() =~= t);
    lemma_item_reads(e, 0, Seq::empty(), start_pos(t));
}

} // verus!
