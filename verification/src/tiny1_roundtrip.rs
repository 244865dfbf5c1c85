//! What a Tiny V1 file gives back of what the serializer wrote.
//!
//! Reading the header and the flat entries that the serializer writes, class by class as pseudo
//! trees, yields the namespaces, the properties and the classes with their fields and methods,
//! for every class sequence whose names can stand in a column.
use vstd::prelude::*;
use vstd::utf8::valid_utf8;
use crate::bytes::{
    find_byte, is_ascii_ws, lacks_byte, leading_count, lemma_find_byte, trim_end, trim_start,
};
use crate::cursor::{measure, next_pos, slice_next_line, slice_skip_blank, split_cols, Pos};
use crate::element::SpecElement;
use crate::enigma_roundtrip::{lemma_line_split, lemma_one_line_cat, one_line};
use crate::error::SpecErrorKind;
use crate::io::{slice_chunk, ColState};
use crate::tiny1::{
    class_element, class_line, described_element, entry_parent, file_described, header,
    header_text, index_elements, index_final, index_from, index_start, index_step, known_type,
    kw_class, kw_field, kw_method, kw_v1, member_element, member_line, members_emit, next_entry,
    prop_line, prop_of, prop_prefix, props_from, props_text, pt_all, pt_content, pt_step,
    take_utf8, take_utf8_cols, tops_emit, INDENT, IndexState, PtState, SEPARATOR, SpecDescribed,
    SpecEntry, SpecHeader, SpecIndexClass,
};
use crate::bytemap::{
    keys_sorted, lemma_insert_last, lemma_sorted_insert, lex_lt, lookup, sorted_insert,
};
use crate::proguard::start_pos;
use crate::tiny2::names_text;
use crate::tiny2_roundtrip::{
    fold_props, lemma_col_split, lemma_name_ok, lemma_name_tight, lemma_names_text_cons,
    lemma_names_tight, lemma_read_then_names, lemma_tight_sep, name_ok, names_line, names_ok,
    tight,
};

verus! {

/// The reader's state once the line `l` was taken, `r` left after it.
pub open spec fn taken(l: Seq<u8>, r: Seq<u8>) -> ColState {
    ColState { rest: r, line: Some(l), indent: Some(0), last_col: None }
}

/// Whether the reader stands before the text `x`: either nothing of `x` was read, or its
/// first line `l` was just taken and is untouched.
pub open spec fn at(p: Pos, x: Seq<u8>) -> bool {
    ||| (!p.fresh && p.st.rest == x)
    ||| exists|l: Seq<u8>, r: Seq<u8>|
        one_line(l) && x == l + seq![0x0au8] + r && p == Pos { st: taken(l, r), fresh: true }
}

/// A line that the reader takes as it is: tight and not starting with the byte it counts as
/// indentation.
pub open spec fn whole(l: Seq<u8>) -> bool {
    tight(l) && l[0] != INDENT
}

/// Taking a whole line: it stands as it is, at depth zero.
pub proof fn lemma_take_whole(p: Pos, l: Seq<u8>, r: Seq<u8>)
    requires
        whole(l),
        p.st.rest == l + seq![0x0au8] + r,
    ensures
        slice_next_line(p.st, INDENT) == (Some(0usize), taken(l, r)),
        slice_skip_blank(p.st, INDENT) == (Some(0usize), taken(l, r), 1nat),
        next_pos(p, INDENT) == (Some(0usize), Pos { st: taken(l, r), fresh: true }),
{
    lemma_line_split(l, r);
    assert(leading_count(l, INDENT) == 0);
    assert(l.subrange(0, l.len() as int) =~= l);
    assert(trim_start(l) == l);
    assert(trim_end(l) == l);
}

/// At the end of the input no line is taken, and the reader stays at the end.
pub proof fn lemma_take_none(p: Pos)
    requires
        !p.fresh,
        p.st.rest.len() == 0,
    ensures
        next_pos(p, INDENT).0 is None,
        !next_pos(p, INDENT).1.fresh,
        next_pos(p, INDENT).1.st.rest.len() == 0,
{
    lemma_find_byte(p.st.rest, 0x0au8);
    assert(slice_chunk(p.st.rest, 0x0au8).len() == 0);
    let (r, st2) = slice_next_line(p.st, INDENT);
    assert(slice_skip_blank(p.st, INDENT) == (r, st2, 0nat));
}

/// A column, a separator and the rest split into the column and the columns of the rest.
pub proof fn lemma_split_tab(a: Seq<u8>, rest: Seq<u8>)
    requires
        lacks_byte(a, SEPARATOR),
    ensures
        split_cols(a + seq![SEPARATOR] + rest, SEPARATOR) == seq![a] + split_cols(rest, SEPARATOR),
{
    crate::bytes::lemma_find_byte_concat(a, SEPARATOR, rest);
    let x = a + seq![SEPARATOR] + rest;
    assert(x.subrange(0, a.len() as int) =~= a);
    assert(x.subrange(a.len() as int + 1, x.len() as int) =~= rest);
}

/// A fit name followed by fit names splits into the names.
pub proof fn lemma_split_names(a: Seq<u8>, d: Seq<Seq<u8>>)
    requires
        name_ok(a, false),
        names_ok(d, false),
    ensures
        split_cols(a + names_text(d, false), SEPARATOR) == seq![a] + d,
    decreases d.len(),
{
    lemma_name_ok(a, false);
    if d.len() == 0 {
        assert(a + names_text(d, false) =~= a);
        lemma_find_byte(a, SEPARATOR);
        if let Some(i) = find_byte(a, SEPARATOR) {
            assert(a[i] != SEPARATOR);
        }
        assert(seq![a] + d =~= seq![a]);
    } else {
        let t = d.drop_first();
        assert(names_ok(t, false)) by {
            assert forall|i: int| 0 <= i < t.len() implies name_ok(#[trigger] t[i], false) by {
                assert(t[i] == d[i + 1]);
            }
        }
        assert(name_ok(d[0], false));
        lemma_names_text_cons(d, false);
        lemma_name_ok(d[0], false);
        assert(a + names_text(d, false) =~= a + seq![SEPARATOR] + (d[0] + names_text(t, false)));
        lemma_split_tab(a, d[0] + names_text(t, false));
        lemma_split_names(d[0], t);
        assert(seq![a] + (seq![d[0]] + t) =~= seq![a] + d);
    }
}

/// Columns that are all UTF-8 are all kept.
pub proof fn lemma_utf8_only(cols: Seq<Seq<u8>>)
    requires
        forall|i: int| 0 <= i < cols.len() ==> valid_utf8(#[trigger] cols[i]),
    ensures
        crate::tiny1::utf8_only(cols) == cols,
    decreases cols.len(),
{
    if cols.len() > 0 {
        let t = cols.drop_first();
        assert forall|i: int| 0 <= i < t.len() implies valid_utf8(#[trigger] t[i]) by {
            assert(t[i] == cols[i + 1]);
        }
        lemma_utf8_only(t);
        assert(seq![cols[0]] + t =~= cols);
    }
}

/// A text split after its first line in two ways is split the same.
pub proof fn lemma_same_line(l1: Seq<u8>, r1: Seq<u8>, l2: Seq<u8>, r2: Seq<u8>)
    requires
        one_line(l1),
        one_line(l2),
        l1 + seq![0x0au8] + r1 == l2 + seq![0x0au8] + r2,
    ensures
        l1 == l2,
        r1 == r2,
{
    lemma_line_split(l1, r1);
    lemma_line_split(l2, r2);
}

/// Before a whole line, the reader's next line is that line.
pub proof fn lemma_at_line(p: Pos, l: Seq<u8>, r: Seq<u8>)
    requires
        whole(l),
        at(p, l + seq![0x0au8] + r),
    ensures
        p.fresh ==> p == (Pos { st: taken(l, r), fresh: true }),
        !p.fresh ==> next_pos(p, INDENT) == (Some(0usize), Pos { st: taken(l, r), fresh: true }),
{
    if p.fresh {
        let (l2, r2) = choose|l2: Seq<u8>, r2: Seq<u8>|
            one_line(l2) && l + seq![0x0au8] + r == l2 + seq![0x0au8] + r2 && p == Pos {
                st: taken(l2, r2),
                fresh: true,
            };
        lemma_same_line(l, r, l2, r2);
    } else {
        lemma_take_whole(p, l, r);
    }
}

/// The columns of a class line after its type.
pub open spec fn class_cols(src: Seq<u8>, dst: Seq<Seq<u8>>) -> Seq<u8> {
    src + names_text(dst, false)
}

/// A class line, its line ending left out.
pub open spec fn class_text(src: Seq<u8>, dst: Seq<Seq<u8>>) -> Seq<u8> {
    kw_class() + seq![SEPARATOR] + class_cols(src, dst)
}

/// The columns of a member line after its type.
pub open spec fn member_cols(parent: Seq<u8>, desc: Seq<u8>, src: Seq<u8>, dst: Seq<Seq<u8>>) -> Seq<u8> {
    parent + seq![SEPARATOR] + desc + seq![SEPARATOR] + src + names_text(dst, false)
}

/// A member line, its line ending left out.
pub open spec fn member_text(kw: Seq<u8>, parent: Seq<u8>, desc: Seq<u8>, src: Seq<u8>, dst: Seq<Seq<u8>>) -> Seq<u8> {
    kw + seq![SEPARATOR] + member_cols(parent, desc, src, dst)
}

/// An entry keyword is tight and has no separator.
pub proof fn lemma_kw(kw: Seq<u8>)
    requires
        kw == kw_class() || kw == kw_field() || kw == kw_method(),
    ensures
        tight(kw),
        lacks_byte(kw, SEPARATOR),
        kw[0] != INDENT,
        known_type(kw),
{
    assert(kw.len() >= 5);
    assert forall|i: int| 0 <= i < kw.len() implies #[trigger] kw[i] != 0x0au8 && kw[i] != SEPARATOR by {
        assert(0x41u8 <= kw[i] <= 0x5au8);
    }
    assert(0x41u8 <= kw[kw.len() - 1] <= 0x5au8);
}

/// Reading a written class line gives back the class entry, and leaves the reader after the line.
pub proof fn lemma_next_class(p: Pos, src: Seq<u8>, dst: Seq<Seq<u8>>, r: Seq<u8>)
    requires
        name_ok(src, false),
        names_ok(dst, false),
        at(p, class_text(src, dst) + seq![0x0au8] + r),
    ensures
        next_entry(p).0 == Ok::<Option<SpecEntry>, SpecErrorKind>(Some(SpecEntry::Class { name: src, dst })),
        !next_entry(p).1.fresh,
        next_entry(p).1.st.rest == r,
{
    let l = class_text(src, dst);
    lemma_kw(kw_class());
    lemma_name_tight(src, false);
    lemma_tight_sep(kw_class(), src);
    lemma_names_tight(kw_class() + seq![SEPARATOR] + src, dst, false);
    assert(l =~= kw_class() + seq![SEPARATOR] + src + names_text(dst, false));
    assert(l[0] == kw_class()[0]);
    lemma_at_line(p, l, r);
    let st1 = taken(l, r);
    lemma_col_split(st1, kw_class(), class_cols(src, dst));
    let st2 = ColState { line: Some(class_cols(src, dst)), last_col: Some(kw_class()), ..st1 };
    crate::cursor::lemma_all_cols_cols(st2, SEPARATOR);
    lemma_split_names(src, dst);
    let cols = seq![src] + dst;
    lemma_name_ok(src, false);
    assert(cols.drop_first() =~= dst);
    assert forall|i: int| 0 <= i < dst.len() implies valid_utf8(#[trigger] dst[i]) by {
        assert(name_ok(dst[i], false));
    }
    lemma_utf8_only(dst);
    assert(cols[0] == src);
}

/// Reading a written member line gives back the member entry, and leaves the reader after the
/// line.
pub proof fn lemma_next_member(
    p: Pos,
    kw: Seq<u8>,
    parent: Seq<u8>,
    desc: Seq<u8>,
    src: Seq<u8>,
    dst: Seq<Seq<u8>>,
    r: Seq<u8>,
)
    requires
        kw == kw_field() || kw == kw_method(),
        name_ok(parent, false),
        name_ok(desc, false),
        name_ok(src, false),
        names_ok(dst, false),
        !p.fresh,
        p.st.rest == member_text(kw, parent, desc, src, dst) + seq![0x0au8] + r,
    ensures
        next_entry(p).0 == Ok::<Option<SpecEntry>, SpecErrorKind>(Some(
            if kw == kw_method() {
                SpecEntry::Method { parent, desc, name: src, dst }
            } else {
                SpecEntry::Field { parent, desc, name: src, dst }
            },
        )),
        !next_entry(p).1.fresh,
        next_entry(p).1.st.rest == r,
{
    let l = member_text(kw, parent, desc, src, dst);
    lemma_kw(kw);
    lemma_name_tight(parent, false);
    lemma_name_tight(desc, false);
    lemma_name_tight(src, false);
    lemma_tight_sep(kw, parent);
    lemma_tight_sep(kw + seq![SEPARATOR] + parent, desc);
    lemma_tight_sep(kw + seq![SEPARATOR] + parent + seq![SEPARATOR] + desc, src);
    lemma_names_tight(
        kw + seq![SEPARATOR] + parent + seq![SEPARATOR] + desc + seq![SEPARATOR] + src,
        dst,
        false,
    );
    assert(l =~= kw + seq![SEPARATOR] + parent + seq![SEPARATOR] + desc + seq![SEPARATOR] + src
        + names_text(dst, false));
    assert(l[0] == kw[0]);
    lemma_take_whole(p, l, r);
    let st1 = taken(l, r);
    let mc = member_cols(parent, desc, src, dst);
    lemma_col_split(st1, kw, mc);
    let st2 = ColState { line: Some(mc), last_col: Some(kw), ..st1 };
    crate::cursor::lemma_all_cols_cols(st2, SEPARATOR);
    lemma_name_ok(parent, false);
    lemma_name_ok(desc, false);
    lemma_name_ok(src, false);
    assert(mc =~= parent + seq![SEPARATOR] + (desc + seq![SEPARATOR] + (src + names_text(dst, false))));
    lemma_split_tab(parent, desc + seq![SEPARATOR] + (src + names_text(dst, false)));
    lemma_split_tab(desc, src + names_text(dst, false));
    lemma_split_names(src, dst);
    let cols = seq![parent, desc, src] + dst;
    assert(split_cols(mc, SEPARATOR) =~= cols);
    assert(cols.subrange(3, cols.len() as int) =~= dst);
    assert forall|i: int| 0 <= i < dst.len() implies valid_utf8(#[trigger] dst[i]) by {
        assert(name_ok(dst[i], false));
    }
    lemma_utf8_only(dst);
    assert(kw != kw_class()) by {
        assert(kw_class()[0] != kw[0]);
    }
}

/// At the end of the input no entry is read, and the reader stays at the end.
pub proof fn lemma_next_none(p: Pos)
    requires
        !p.fresh,
        p.st.rest.len() == 0,
    ensures
        next_entry(p).0 == Ok::<Option<SpecEntry>, SpecErrorKind>(None),
        !next_entry(p).1.fresh,
        next_entry(p).1.st.rest.len() == 0,
{
    lemma_take_none(p);
}

/// Whether a Tiny V1 file holds the member `e` of a class faithfully: a field or method with fit
/// names, a descriptor, no destination descriptors and no content.
pub open spec fn member_ok(e: SpecElement) -> bool {
    match e {
        SpecElement::Field { src, dst, desc, dst_desc, content } => name_ok(src, false) && names_ok(
            dst,
            false,
        ) && (desc matches Some(d) && name_ok(d, false)) && dst_desc is None && content.len() == 0,
        SpecElement::Method { src, dst, desc, dst_desc, content } => name_ok(src, false)
            && names_ok(dst, false) && (desc matches Some(d) && name_ok(d, false)) && dst_desc is None
            && content.len() == 0,
        _ => false,
    }
}

/// Whether a Tiny V1 file holds the class `e` faithfully: fit names and faithful members.
pub open spec fn class_ok(e: SpecElement) -> bool {
    match e {
        SpecElement::Class { src, dst, content } => name_ok(src, false) && names_ok(dst, false) && (
        forall|i: int| 0 <= i < content.len() ==> member_ok(#[trigger] content[i])),
        _ => false,
    }
}

/// Whether a Tiny V1 file holds every element of `es` faithfully: they are all faithful classes.
pub open spec fn classes_ok(es: Seq<SpecElement>) -> bool {
    forall|i: int| 0 <= i < es.len() ==> class_ok(#[trigger] es[i])
}

/// The line a faithful member writes in class `parent`, its line ending left out.
pub open spec fn member_line_of(e: SpecElement, parent: Seq<u8>) -> Seq<u8> {
    match e {
        SpecElement::Field { src, dst, desc, .. } => member_text(kw_field(), parent, desc.unwrap(), src, dst),
        SpecElement::Method { src, dst, desc, .. } => member_text(kw_method(), parent, desc.unwrap(), src, dst),
        _ => Seq::empty(),
    }
}

/// The class entry that a class element writes.
pub open spec fn class_head(e: SpecElement) -> (Seq<u8>, Seq<Seq<u8>>) {
    match e {
        SpecElement::Class { src, dst, .. } => (src, dst),
        _ => arbitrary(),
    }
}

/// The members of a class element.
pub open spec fn class_members(e: SpecElement) -> Seq<SpecElement> {
    match e {
        SpecElement::Class { content, .. } => content,
        _ => Seq::empty(),
    }
}

/// The class entry read ahead before the classes `es`, if any.
pub open spec fn first_head(es: Seq<SpecElement>) -> Option<(Seq<u8>, Seq<Seq<u8>>)> {
    if es.len() == 0 {
        None
    } else {
        Some(class_head(es[0]))
    }
}

/// Faithful members are written line by line, without error.
pub proof fn lemma_members_emit(ms: Seq<SpecElement>, parent: Seq<u8>)
    requires
        forall|i: int| 0 <= i < ms.len() ==> member_ok(#[trigger] ms[i]),
    ensures
        members_emit(ms, parent).1 is None,
        ms.len() > 0 ==> members_emit(ms, parent).0 == member_line_of(ms[0], parent) + seq![0x0au8]
            + members_emit(ms.drop_first(), parent).0,
        ms.len() == 0 ==> members_emit(ms, parent).0 == Seq::<u8>::empty(),
    decreases ms.len(),
{
    if ms.len() > 0 {
        let t = ms.drop_first();
        assert forall|i: int| 0 <= i < t.len() implies member_ok(#[trigger] t[i]) by {
            assert(t[i] == ms[i + 1]);
        }
        lemma_members_emit(t, parent);
        assert(member_ok(ms[0]));
        match ms[0] {
            SpecElement::Field { src, dst, desc, .. } => {
                assert(member_line(kw_field(), parent, desc.unwrap(), src, dst) =~= member_line_of(
                    ms[0],
                    parent,
                ) + seq![0x0au8]);
            },
            SpecElement::Method { src, dst, desc, .. } => {
                assert(member_line(kw_method(), parent, desc.unwrap(), src, dst) =~= member_line_of(
                    ms[0],
                    parent,
                ) + seq![0x0au8]);
            },
            _ => {},
        }
    }
}

/// Faithful classes are written class line first, then the member lines, class after class,
/// without error.
pub proof fn lemma_tops_emit(es: Seq<SpecElement>)
    requires
        classes_ok(es),
    ensures
        tops_emit(es).1 is None,
        es.len() > 0 ==> tops_emit(es).0 == class_text(class_head(es[0]).0, class_head(es[0]).1)
            + seq![0x0au8] + members_emit(class_members(es[0]), class_head(es[0]).0).0 + tops_emit(
            es.drop_first(),
        ).0,
        es.len() == 0 ==> tops_emit(es).0 == Seq::<u8>::empty(),
    decreases es.len(),
{
    if es.len() > 0 {
        let t = es.drop_first();
        assert forall|i: int| 0 <= i < t.len() implies class_ok(#[trigger] t[i]) by {
            assert(t[i] == es[i + 1]);
        }
        lemma_tops_emit(t);
        assert(class_ok(es[0]));
        if let SpecElement::Class { src, dst, content } = es[0] {
            lemma_members_emit(content, src);
            assert(class_line(src, dst) =~= class_text(src, dst) + seq![0x0au8]);
        }
    }
}

/// What follows the class line of the first of `es`: its member lines, then the other classes.
pub open spec fn after_head(es: Seq<SpecElement>) -> Seq<u8> {
    if es.len() == 0 {
        Seq::empty()
    } else {
        members_emit(class_members(es[0]), class_head(es[0]).0).0 + tops_emit(es.drop_first()).0
    }
}

/// The classes after the first of faithful classes are faithful.
pub proof fn lemma_classes_tail(es: Seq<SpecElement>)
    requires
        classes_ok(es),
        es.len() > 0,
    ensures
        classes_ok(es.drop_first()),
        class_ok(es[0]),
        tops_emit(es).0 == class_text(class_head(es[0]).0, class_head(es[0]).1) + seq![0x0au8]
            + after_head(es),
{
    let t = es.drop_first();
    assert forall|i: int| 0 <= i < t.len() implies class_ok(#[trigger] t[i]) by {
        assert(t[i] == es[i + 1]);
    }
    assert(class_ok(es[0]));
    lemma_tops_emit(es);
}

/// A faithful member comes back as the element that its member entry makes.
proof fn lemma_member_back(m: SpecElement, parent: Seq<u8>)
    requires
        member_ok(m),
    ensures
        ({
            let e = match m {
                SpecElement::Method { src, dst, desc, .. } => SpecEntry::Method {
                    parent,
                    desc: desc.unwrap(),
                    name: src,
                    dst,
                },
                _ => SpecEntry::Field {
                    parent,
                    desc: m->Field_desc.unwrap(),
                    name: m->Field_src,
                    dst: m->Field_dst,
                },
            };
            member_element(e) == m && entry_parent(e) == parent
        }),
{
    match m {
        SpecElement::Field { content, .. } => {
            assert(content =~= Seq::<SpecElement>::empty());
        },
        SpecElement::Method { content, .. } => {
            assert(content =~= Seq::<SpecElement>::empty());
        },
        _ => {},
    }
}

/// Reading the member lines of class `parent`, then the classes `es`: the members come back
/// with the first of `es` read ahead, and the reader stands after its class line.
#[verifier::spinoff_prover]
#[verifier::rlimit(30)]
pub proof fn lemma_content_read(ms: Seq<SpecElement>, parent: Seq<u8>, p: Pos, es: Seq<SpecElement>)
    requires
        forall|i: int| 0 <= i < ms.len() ==> member_ok(#[trigger] ms[i]),
        name_ok(parent, false),
        classes_ok(es),
        !p.fresh,
        p.st.rest == members_emit(ms, parent).0 + tops_emit(es).0,
    ensures
        pt_content(p, parent).0 == Ok::<
            (Seq<SpecElement>, Option<(Seq<u8>, Seq<Seq<u8>>)>),
            SpecErrorKind,
        >((ms, first_head(es))),
        !pt_content(p, parent).1.fresh,
        pt_content(p, parent).1.st.rest == after_head(es),
    decreases ms.len(),
{
    lemma_members_emit(ms, parent);
    lemma_tops_emit(es);
    if ms.len() == 0 {
        assert(p.st.rest =~= tops_emit(es).0);
        if es.len() == 0 {
            lemma_next_none(p);
        } else {
            lemma_classes_tail(es);
            let (src, dst) = class_head(es[0]);
            assert(class_ok(es[0]));
            lemma_next_class(p, src, dst, after_head(es));
        }
        assert(ms =~= Seq::<SpecElement>::empty());
    } else {
        let m = ms[0];
        let t = ms.drop_first();
        assert(member_ok(m));
        let rest = members_emit(t, parent).0 + tops_emit(es).0;
        assert(p.st.rest =~= member_line_of(m, parent) + seq![0x0au8] + rest);
        let (kw, d, src, dst) = match m {
            SpecElement::Field { src, dst, desc, .. } => (kw_field(), desc.unwrap(), src, dst),
            SpecElement::Method { src, dst, desc, .. } => (kw_method(), desc.unwrap(), src, dst),
            _ => arbitrary(),
        };
        assert(member_line_of(m, parent) == member_text(kw, parent, d, src, dst));
        lemma_next_member(p, kw, parent, d, src, dst, rest);
        let p1 = next_entry(p).1;
        assert(measure(p1) < measure(p));
        assert forall|i: int| 0 <= i < t.len() implies member_ok(#[trigger] t[i]) by {
            assert(t[i] == ms[i + 1]);
        }
        lemma_content_read(t, parent, p1, es);
        assert(kw_method() != kw_field());
        lemma_member_back(m, parent);
        assert(seq![m] + t =~= ms);
    }
}

/// Whether the reader stands at the end of the input with no line left to read.
pub open spec fn done(p: Pos) -> bool {
    p.st.rest.len() == 0 && (!p.fresh || p.st.line is None)
}

/// Where a pseudo-tree reader stands before the classes `es`: nothing of them read, or the
/// class line of the first read ahead.
pub open spec fn pt_before(s: PtState, es: Seq<SpecElement>) -> bool {
    &&& !s.aborted
    &&& {
        ||| (s.buf is None && at(s.pos, tops_emit(es).0))
        ||| (s.buf is None && es.len() == 0 && done(s.pos))
        ||| (es.len() > 0 && s.buf == Some(class_head(es[0])) && !s.pos.fresh && s.pos.st.rest
            == after_head(es))
    }
}

/// A pseudo-tree reader before faithful classes reads them all back.
#[verifier::spinoff_prover]
#[verifier::rlimit(30)]
pub proof fn lemma_pt_all(s: PtState, es: Seq<SpecElement>)
    requires
        classes_ok(es),
        pt_before(s, es),
    ensures
        pt_all(s) == Ok::<Seq<SpecElement>, SpecErrorKind>(es),
    decreases es.len(),
{
    lemma_tops_emit(es);
    if es.len() == 0 {
        assert(done(s.pos)) by {
            if s.pos.fresh && !done(s.pos) {
                let (l, r) = choose|l: Seq<u8>, r: Seq<u8>|
                    one_line(l) && tops_emit(es).0 == l + seq![0x0au8] + r && s.pos == Pos {
                        st: taken(l, r),
                        fresh: true,
                    };
                assert((l + seq![0x0au8] + r).len() > 0);
            }
        }
        if !s.pos.fresh {
            lemma_next_none(s.pos);
        }
        assert(es =~= Seq::<SpecElement>::empty());
    } else {
        lemma_classes_tail(es);
        let (src, dst) = class_head(es[0]);
        let ms = class_members(es[0]);
        let rest = after_head(es);
        let t = es.drop_first();
        assert(class_ok(es[0]));
        let p1 = if s.buf is None {
            lemma_next_class(s.pos, src, dst, rest);
            next_entry(s.pos).1
        } else {
            s.pos
        };
        assert(!p1.fresh && p1.st.rest == rest);
        lemma_content_read(ms, src, p1, t);
        let (r, s2) = pt_step(s);
        assert(r == Ok::<Option<SpecElement>, SpecErrorKind>(Some(es[0])));
        assert(pt_before(s2, t)) by {
            lemma_tops_emit(t);
            if t.len() > 0 {
                lemma_classes_tail(t);
            } else {
                assert(after_head(t) =~= tops_emit(t).0);
            }
        }
        // The reader moves on, or a class read ahead is used up.
        lemma_tops_emit(t);
        assert(after_head(t).len() <= rest.len()) by {
            if t.len() > 0 {
                lemma_classes_tail(t);
                assert(tops_emit(t).0 == class_text(class_head(t[0]).0, class_head(t[0]).1)
                    + seq![0x0au8] + after_head(t));
            }
            assert(rest == members_emit(ms, src).0 + tops_emit(t).0);
        }
        if s.buf is None && s.pos.fresh {
            let (l, r0) = choose|l: Seq<u8>, r0: Seq<u8>|
                one_line(l) && tops_emit(es).0 == l + seq![0x0au8] + r0 && s.pos == Pos {
                    st: taken(l, r0),
                    fresh: true,
                };
            assert(one_line(class_text(src, dst))) by {
                lemma_kw(kw_class());
                lemma_name_tight(src, false);
                lemma_tight_sep(kw_class(), src);
                lemma_names_tight(kw_class() + seq![SEPARATOR] + src, dst, false);
                assert(class_text(src, dst) =~= kw_class() + seq![SEPARATOR] + src + names_text(
                    dst,
                    false,
                ));
            }
            lemma_same_line(l, r0, class_text(src, dst), rest);
        }
        if t.len() > 0 {
            lemma_classes_tail(t);
            assert(after_head(t).len() < rest.len()) by {
                assert(tops_emit(t).0 == class_text(class_head(t[0]).0, class_head(t[0]).1)
                    + seq![0x0au8] + after_head(t));
                assert(rest == members_emit(ms, src).0 + tops_emit(t).0);
            }
        }
        lemma_pt_all(s2, t);
        assert(seq![es[0]] + t =~= es);
    }
}

/// A property that a property line holds: a fit key without a space, and no value or a
/// non-empty UTF-8 value on one line that does not end in whitespace.
pub open spec fn prop_ok(pr: (Seq<u8>, Option<Seq<u8>>)) -> bool {
    &&& name_ok(pr.0, false)
    &&& crate::bytes::lacks_byte(pr.0, 0x20u8)
    &&& match pr.1 {
        None => true,
        Some(x) => x.len() > 0 && valid_utf8(x) && one_line(x) && !is_ascii_ws(x.last()),
    }
}

/// Every property of `ps` can stand on a property line.
pub open spec fn props_ok(ps: Seq<(Seq<u8>, Option<Seq<u8>>)>) -> bool {
    forall|i: int| 0 <= i < ps.len() ==> prop_ok(#[trigger] ps[i])
}

/// The text of a property line after its prefix.
pub open spec fn prop_body(pr: (Seq<u8>, Option<Seq<u8>>)) -> Seq<u8> {
    match pr.1 {
        None => pr.0,
        Some(x) => pr.0 + seq![0x20u8] + x,
    }
}

/// The property lines, told from the first one on.
pub proof fn lemma_props_text_cons(ps: Seq<(Seq<u8>, Option<Seq<u8>>)>)
    requires
        ps.len() > 0,
    ensures
        props_text(ps) == prop_line(ps[0].0, ps[0].1) + props_text(ps.drop_first()),
    decreases ps.len(),
{
    if ps.len() == 1 {
        assert(ps.drop_last() =~= Seq::<(Seq<u8>, Option<Seq<u8>>)>::empty());
        assert(ps.drop_first() =~= Seq::<(Seq<u8>, Option<Seq<u8>>)>::empty());
        assert(ps.last() == ps[0]);
    } else {
        lemma_props_text_cons(ps.drop_last());
        assert(ps.drop_last()[0] == ps[0]);
        assert(ps.drop_last().drop_first() =~= ps.drop_first().drop_last());
        assert(ps.drop_first().last() == ps.last());
    }
}

/// A property line is whole, and its text after the prefix reads back as the property.
pub proof fn lemma_prop_line(pr: (Seq<u8>, Option<Seq<u8>>))
    requires
        prop_ok(pr),
    ensures
        prop_line(pr.0, pr.1) == (prop_prefix() + prop_body(pr)) + seq![0x0au8],
        whole(prop_prefix() + prop_body(pr)),
        crate::strs::has_prefix(prop_prefix() + prop_body(pr), prop_prefix()),
        (prop_prefix() + prop_body(pr)).subrange(2, (prop_prefix() + prop_body(pr)).len() as int)
            == prop_body(pr),
        valid_utf8(prop_body(pr)),
        prop_of(prop_body(pr)) == (pr.0, pr.1),
{
    let k = pr.0;
    let b = prop_body(pr);
    let l = prop_prefix() + b;
    lemma_name_ok(k, false);
    lemma_name_tight(k, false);
    let sp = seq![0x20u8];
    assert(one_line(sp)) by {
        assert forall|i: int| 0 <= i < 1 implies #[trigger] sp[i] != 0x0au8 by {}
    }
    assert(one_line(prop_prefix())) by {
        assert forall|i: int| 0 <= i < 2 implies #[trigger] prop_prefix()[i] != 0x0au8 by {}
    }
    match pr.1 {
        None => {
            lemma_find_byte(k, 0x20u8);
            if let Some(i) = find_byte(k, 0x20u8) {
                assert(k[i] != 0x20u8);
            }
            assert(trim_end(k) == k);
        },
        Some(x) => {
            assert(valid_utf8(sp)) by {
                crate::text::lemma_ascii_utf8(sp);
            }
            vstd::utf8::valid_utf8_concat(k, sp);
            vstd::utf8::valid_utf8_concat(k + sp, x);
            lemma_one_line_cat(k, sp);
            lemma_one_line_cat(k + sp, x);
            assert(b.last() == x.last());
            assert(trim_end(b) == b);
            crate::bytes::lemma_find_byte_concat(k, 0x20u8, x);
        },
    }
    lemma_one_line_cat(prop_prefix(), b);
    assert(l[0] == 0x23u8);
    assert(l.last() == b.last());
    assert(l.subrange(0, 2) =~= prop_prefix());
    assert(l.subrange(2, l.len() as int) =~= b);
    assert(prop_line(pr.0, pr.1) =~= l + seq![0x0au8]);
}

/// Reading property lines gives back the properties added one after another, and leaves the
/// reader before the classes after them.
pub proof fn lemma_props_read(
    ps: Seq<(Seq<u8>, Option<Seq<u8>>)>,
    acc: Seq<(Seq<u8>, Option<Seq<u8>>)>,
    p: Pos,
    es: Seq<SpecElement>,
)
    requires
        props_ok(ps),
        classes_ok(es),
        keys_sorted(acc),
        p.st.rest == props_text(ps) + tops_emit(es).0,
        p.fresh ==> (p.st.line matches Some(l) && l.len() > 0),
    ensures
        props_from(p, acc).0 == Ok::<Seq<(Seq<u8>, Option<Seq<u8>>)>, SpecErrorKind>(
            fold_props(acc, ps),
        ),
        at(props_from(p, acc).1, tops_emit(es).0) || (es.len() == 0 && done(props_from(p, acc).1)),
    decreases ps.len(),
{
    lemma_tops_emit(es);
    if ps.len() == 0 {
        assert(props_text(ps) + tops_emit(es).0 =~= tops_emit(es).0);
        if es.len() == 0 {
            if p.fresh {
                lemma_find_byte(p.st.rest, 0x0au8);
                assert(slice_chunk(p.st.rest, 0x0au8).len() == 0);
                let (r, st2) = slice_next_line(p.st, INDENT);
                assert(slice_skip_blank(p.st, INDENT) == (r, st2, 0nat));
            } else {
                lemma_take_none(p);
            }
        } else {
            lemma_classes_tail(es);
            let (src, dst) = class_head(es[0]);
            assert(class_ok(es[0]));
            let l = class_text(src, dst);
            lemma_kw(kw_class());
            lemma_name_tight(src, false);
            lemma_tight_sep(kw_class(), src);
            lemma_names_tight(kw_class() + seq![SEPARATOR] + src, dst, false);
            assert(l =~= kw_class() + seq![SEPARATOR] + src + names_text(dst, false));
            assert(l[0] == kw_class()[0]);
            lemma_take_whole(p, l, after_head(es));
            assert(!crate::strs::has_prefix(l, prop_prefix())) by {
                assert(l.subrange(0, 2)[0] != prop_prefix()[0]);
            }
        }
    } else {
        let pr = ps[0];
        let t = ps.drop_first();
        assert(prop_ok(pr));
        assert(props_ok(t)) by {
            assert forall|i: int| 0 <= i < t.len() implies prop_ok(#[trigger] t[i]) by {
                assert(t[i] == ps[i + 1]);
            }
        }
        lemma_props_text_cons(ps);
        lemma_prop_line(pr);
        let l = prop_prefix() + prop_body(pr);
        let rest = props_text(t) + tops_emit(es).0;
        assert(p.st.rest =~= l + seq![0x0au8] + rest);
        lemma_take_whole(p, l, rest);
        let p1 = Pos { st: taken(l, rest), fresh: true };
        lemma_sorted_insert(acc, pr.0, pr.1);
        if t.len() == 0 {
            assert(props_text(t) == Seq::<u8>::empty());
        }
        lemma_props_read(t, sorted_insert(acc, pr.0, pr.1), p1, es);
        if t.len() == 0 {
            // After the last property line the next read takes the first class line, or ends.
            assert(p1.st.rest =~= tops_emit(es).0);
        }
    }
}

/// Reading the columns left on a line, each UTF-8, gives back the names written there.
pub proof fn lemma_take_utf8_cols(st: ColState, d: Seq<Seq<u8>>)
    requires
        names_ok(d, false),
        st.line == names_line(d),
    ensures
        take_utf8_cols(st).0 == Ok::<Seq<Seq<u8>>, SpecErrorKind>(d),
        take_utf8_cols(st).1.rest == st.rest,
    decreases d.len(),
{
    if d.len() == 0 {
        assert(d =~= Seq::<Seq<u8>>::empty());
    } else {
        let t = d.drop_first();
        assert(names_ok(t, false)) by {
            assert forall|i: int| 0 <= i < t.len() implies name_ok(#[trigger] t[i], false) by {
                assert(t[i] == d[i + 1]);
            }
        }
        assert(name_ok(d[0], false));
        lemma_name_ok(d[0], false);
        lemma_read_then_names(st, d[0], t, false);
        let st2 = ColState { line: names_line(t), last_col: Some(d[0]), ..st };
        if t.len() > 0 {
            lemma_names_text_cons(t, false);
        }
        assert(crate::io::line_potential(st2) < crate::io::line_potential(st));
        lemma_take_utf8_cols(st2, t);
        assert(seq![d[0]] + t =~= d);
    }
}

/// The header line as written.
pub open spec fn header_line_text(src: Seq<u8>, dst: Seq<Seq<u8>>) -> Seq<u8> {
    kw_v1() + seq![SEPARATOR] + src + names_text(dst, false)
}

/// Reading the header that the serializer writes gives back the namespaces and the properties
/// added one after another, and leaves the reader before the classes after it.
pub proof fn lemma_header_read(
    src: Seq<u8>,
    dst: Seq<Seq<u8>>,
    props: Seq<(Seq<u8>, Option<Seq<u8>>)>,
    es: Seq<SpecElement>,
)
    requires
        name_ok(src, false),
        names_ok(dst, false),
        dst.len() > 0,
        props_ok(props),
        classes_ok(es),
    ensures
        ({
            let text = header_text(src, dst, props) + tops_emit(es).0;
            let (h, p) = header(start_pos(text));
            &&& h == Ok::<SpecHeader, SpecErrorKind>(
                SpecHeader {
                    src,
                    dst: dst[0],
                    extra: dst.drop_first(),
                    props: fold_props(Seq::empty(), props),
                },
            )
            &&& at(p, tops_emit(es).0) || (es.len() == 0 && done(p))
        }),
{
    lemma_tops_emit(es);
    let body = tops_emit(es).0;
    let rest = props_text(props) + body;
    let text = header_text(src, dst, props) + body;
    let hl = header_line_text(src, dst);
    // The header line is whole.
    let v1 = kw_v1();
    assert(tight(v1)) by {
        assert forall|i: int| 0 <= i < 2 implies #[trigger] v1[i] != 0x0au8 by {}
    }
    lemma_name_tight(src, false);
    lemma_tight_sep(v1, src);
    lemma_names_tight(v1 + seq![SEPARATOR] + src, dst, false);
    assert(hl =~= v1 + seq![SEPARATOR] + src + names_text(dst, false));
    assert(hl[0] == v1[0]);
    assert(text =~= hl + seq![0x0au8] + rest);
    let p0 = start_pos(text);
    lemma_take_whole(p0, hl, rest);
    let st0 = taken(hl, rest);
    // Its columns.
    assert(lacks_byte(v1, SEPARATOR));
    assert(hl =~= v1 + seq![SEPARATOR] + (src + names_text(dst, false)));
    lemma_col_split(st0, v1, src + names_text(dst, false));
    let st1 = ColState { line: Some(src + names_text(dst, false)), last_col: Some(v1), ..st0 };
    lemma_name_ok(src, false);
    lemma_read_then_names(st1, src, dst, false);
    let st2 = ColState { line: names_line(dst), last_col: Some(src), ..st0 };
    let t = dst.drop_first();
    assert(names_ok(t, false)) by {
        assert forall|i: int| 0 <= i < t.len() implies name_ok(#[trigger] t[i], false) by {
            assert(t[i] == dst[i + 1]);
        }
    }
    assert(name_ok(dst[0], false));
    lemma_name_ok(dst[0], false);
    lemma_read_then_names(st2, dst[0], t, false);
    let st3 = ColState { line: names_line(t), last_col: Some(dst[0]), ..st0 };
    assert(take_utf8(st1, "namespace-a") == (Ok::<Seq<u8>, SpecErrorKind>(src), st2));
    assert(take_utf8(st2, "namespace-b") == (Ok::<Seq<u8>, SpecErrorKind>(dst[0]), st3));
    lemma_take_utf8_cols(st3, t);
    let st4 = take_utf8_cols(st3).1;
    let p4 = Pos { st: st4, fresh: false };
    lemma_props_read(props, Seq::empty(), p4, es);
}


/// Law: a Tiny V1 file written from a header and faithful classes reads back, as pseudo trees, as
/// that header, the properties sorted by key with the last value of each, and as those classes
/// with their fields and methods.
pub proof fn lemma_tiny1_roundtrip(
    src: Seq<u8>,
    dst: Seq<Seq<u8>>,
    props: Seq<(Seq<u8>, Option<Seq<u8>>)>,
    es: Seq<SpecElement>,
)
    requires
        name_ok(src, false),
        names_ok(dst, false),
        dst.len() > 0,
        props_ok(props),
        classes_ok(es),
    ensures
        ({
            let text = header_text(src, dst, props) + tops_emit(es).0;
            let (h, p) = header(start_pos(text));
            &&& tops_emit(es).1 is None
            &&& h == Ok::<SpecHeader, SpecErrorKind>(
                SpecHeader {
                    src,
                    dst: dst[0],
                    extra: dst.drop_first(),
                    props: fold_props(Seq::empty(), props),
                },
            )
            &&& pt_all(PtState { pos: p, buf: None, aborted: false }) == Ok::<
                Seq<SpecElement>,
                SpecErrorKind,
            >(es)
        }),
{
    lemma_tops_emit(es);
    lemma_header_read(src, dst, props, es);
    let (h, p) = header(start_pos(header_text(src, dst, props) + tops_emit(es).0));
    lemma_pt_all(PtState { pos: p, buf: None, aborted: false }, es);
}

/// A faithful member as the index files it.
pub open spec fn described_of(m: SpecElement) -> SpecDescribed {
    match m {
        SpecElement::Method { src, dst, desc, .. } => SpecDescribed {
            is_method: true,
            desc: desc.unwrap(),
            name: src,
            dst,
        },
        _ => SpecDescribed {
            is_method: false,
            desc: m->Field_desc.unwrap(),
            name: m->Field_src,
            dst: m->Field_dst,
        },
    }
}

/// A faithful class as the index files it.
pub open spec fn index_entry(e: SpecElement) -> (Seq<u8>, SpecIndexClass) {
    (
        class_head(e).0,
        SpecIndexClass {
            parts: Some(class_head(e).1),
            contents: class_members(e).map_values(|m: SpecElement| described_of(m)),
        },
    )
}

/// Whether the classes come in strictly increasing order of their source names.
pub open spec fn names_increasing(es: Seq<SpecElement>) -> bool {
    forall|i: int, j: int|
        0 <= i < j < es.len() ==> lex_lt(#[trigger] class_head(es[i]).0, #[trigger] class_head(es[j]).0)
}

/// The classes an index state holds once its cursor's class is filed.
pub open spec fn filed(s: IndexState) -> Seq<(Seq<u8>, SpecIndexClass)> {
    match s.cursor {
        Some(kc) => s.map.push(kc),
        None => s.map,
    }
}

/// An index state whose classes come in order, all of them before the classes `es`.
pub open spec fn index_before(s: IndexState, es: Seq<SpecElement>) -> bool {
    &&& keys_sorted(filed(s))
    &&& forall|i: int, j: int|
        0 <= i < filed(s).len() && 0 <= j < es.len() ==> lex_lt(
            #[trigger] filed(s)[i].0,
            #[trigger] class_head(es[j]).0,
        )
}

/// Filing the cursor's class of an ordered state appends it.
pub proof fn lemma_final_filed(s: IndexState, es: Seq<SpecElement>)
    requires
        index_before(s, es),
    ensures
        index_final(s) == filed(s),
{
    if let Some((k, c)) = s.cursor {
        let m = s.map;
        assert(keys_sorted(m)) by {
            assert forall|i: int, j: int| 0 <= i < j < m.len() implies lex_lt(
                #[trigger] m[i].0,
                #[trigger] m[j].0,
            ) by {
                assert(filed(s)[i] == m[i] && filed(s)[j] == m[j]);
            }
        }
        assert forall|j: int| 0 <= j < m.len() implies lex_lt(#[trigger] m[j].0, k) by {
            assert(filed(s)[j] == m[j] && filed(s)[m.len() as int].0 == k);
        }
        lemma_insert_last(m, k, c);
    }
}

/// Filing a faithful member under the cursor's class of the same name appends it there.
pub proof fn lemma_file_member(s: IndexState, parent: Seq<u8>, m: SpecElement)
    requires
        member_ok(m),
        s.cursor matches Some(kc) && kc.0 == parent,
    ensures
        file_described(s, parent, described_of(m)) == (IndexState {
            map: s.map,
            cursor: Some(
                (
                    parent,
                    SpecIndexClass {
                        parts: s.cursor->Some_0.1.parts,
                        contents: s.cursor->Some_0.1.contents.push(described_of(m)),
                    },
                ),
            ),
        }),
{
}

/// The state with the cursor's class holding the members `ms` after its contents.
pub open spec fn with_members(s: IndexState, ms: Seq<SpecElement>) -> IndexState {
    IndexState {
        map: s.map,
        cursor: Some(
            (
                s.cursor->Some_0.0,
                SpecIndexClass {
                    parts: s.cursor->Some_0.1.parts,
                    contents: s.cursor->Some_0.1.contents + ms.map_values(
                        |m: SpecElement| described_of(m),
                    ),
                },
            ),
        ),
    }
}

/// Reading the classes `es` into an ordered index state files each in turn, in order.
#[verifier::spinoff_prover]
#[verifier::rlimit(30)]
pub proof fn lemma_index_classes(es: Seq<SpecElement>, p: Pos, s: IndexState)
    requires
        classes_ok(es),
        names_increasing(es),
        index_before(s, es),
        at(p, tops_emit(es).0) || (es.len() == 0 && done(p)),
    ensures
        index_from(p, s) matches Ok(s2) && index_final(s2) == filed(s) + es.map_values(
            |e: SpecElement| index_entry(e),
        ),
    decreases es.len(), 1nat, 0nat,
{
    lemma_tops_emit(es);
    if es.len() == 0 {
        if at(p, tops_emit(es).0) && p.fresh {
            let (l, r) = choose|l: Seq<u8>, r: Seq<u8>|
                one_line(l) && tops_emit(es).0 == l + seq![0x0au8] + r && p == Pos {
                    st: taken(l, r),
                    fresh: true,
                };
            assert((l + seq![0x0au8] + r).len() > 0);
        }
        if !p.fresh {
            lemma_next_none(p);
        }
        lemma_final_filed(s, es);
        assert(filed(s) + es.map_values(|e: SpecElement| index_entry(e)) =~= filed(s));
    } else {
        lemma_classes_tail(es);
        let (name, dst) = class_head(es[0]);
        let ms = class_members(es[0]);
        let t = es.drop_first();
        assert(class_ok(es[0]));
        lemma_next_class(p, name, dst, after_head(es));
        let p1 = next_entry(p).1;
        lemma_tops_emit(t);
        assert(measure(p1) < measure(p)) by {
            if p.fresh {
                let (l, r) = choose|l: Seq<u8>, r: Seq<u8>|
                    one_line(l) && tops_emit(es).0 == l + seq![0x0au8] + r && p == Pos {
                        st: taken(l, r),
                        fresh: true,
                    };
                assert(one_line(class_text(name, dst))) by {
                    lemma_kw(kw_class());
                    lemma_name_tight(name, false);
                    lemma_tight_sep(kw_class(), name);
                    lemma_names_tight(kw_class() + seq![SEPARATOR] + name, dst, false);
                    assert(class_text(name, dst) =~= kw_class() + seq![SEPARATOR] + name + names_text(
                        dst,
                        false,
                    ));
                }
                lemma_same_line(l, r, class_text(name, dst), after_head(es));
            }
        }
        // The class opens the cursor; the class held before is filed.
        let f = filed(s);
        assert forall|i: int| 0 <= i < f.len() implies lex_lt(#[trigger] f[i].0, name) by {
            assert(class_head(es[0]).0 == name);
        }
        let c0 = SpecIndexClass { parts: Some(dst), contents: Seq::empty() };
        let s1 = IndexState { map: f, cursor: Some((name, c0)) };
        assert(lookup(s.map, name) is None) by {
            assert(keys_sorted(s.map)) by {
                assert forall|i: int, j: int| 0 <= i < j < s.map.len() implies lex_lt(
                    #[trigger] s.map[i].0,
                    #[trigger] s.map[j].0,
                ) by {
                    assert(f[i] == s.map[i] && f[j] == s.map[j]);
                }
            }
            assert forall|j: int| 0 <= j < s.map.len() implies lex_lt(#[trigger] s.map[j].0, name) by {
                assert(f[j] == s.map[j]);
            }
            lemma_insert_last(s.map, name, c0);
        }
        assert(index_step(s, SpecEntry::Class { name, dst }) == s1) by {
            lemma_final_filed(s, es);
        }
        assert(index_before(s1, t)) by {
            assert forall|i: int, j: int| 0 <= i < filed(s1).len() && 0 <= j < t.len() implies lex_lt(
                #[trigger] filed(s1)[i].0,
                #[trigger] class_head(t[j]).0,
            ) by {
                assert(t[j] == es[j + 1]);
                assert(lex_lt(class_head(es[0]).0, class_head(es[j + 1]).0));
                if i < f.len() {
                    assert(filed(s1)[i] == f[i]);
                    assert(lex_lt(f[i].0, class_head(es[j + 1]).0));
                }
            }
            assert forall|i: int, j: int| 0 <= i < j < filed(s1).len() implies lex_lt(
                #[trigger] filed(s1)[i].0,
                #[trigger] filed(s1)[j].0,
            ) by {
                if j == f.len() {
                    assert(filed(s1)[i] == f[i]);
                } else {
                    assert(filed(s1)[i] == f[i] && filed(s1)[j] == f[j]);
                }
            }
        }
        assert(names_increasing(t)) by {
            assert forall|i: int, j: int| 0 <= i < j < t.len() implies lex_lt(
                #[trigger] class_head(t[i]).0,
                #[trigger] class_head(t[j]).0,
            ) by {
                assert(t[i] == es[i + 1] && t[j] == es[j + 1]);
            }
        }
        lemma_index_members(ms, name, p1, s1, t);
        let s1m = with_members(s1, ms);
        assert(filed(s1m) + t.map_values(|e: SpecElement| index_entry(e)) =~= filed(s) + es.map_values(
            |e: SpecElement| index_entry(e),
        )) by {
            assert(filed(s1m) == f.push(index_entry(es[0]))) by {
                assert(c0.contents + ms.map_values(|m: SpecElement| described_of(m)) =~= ms.map_values(
                    |m: SpecElement| described_of(m),
                ));
            }
        }
    }
}

/// Reading the member lines of the cursor's class, then the classes `es`: the members are
/// filed under it, then the classes in turn.
pub proof fn lemma_index_members(ms: Seq<SpecElement>, parent: Seq<u8>, p: Pos, s: IndexState, es: Seq<SpecElement>)
    requires
        forall|i: int| 0 <= i < ms.len() ==> member_ok(#[trigger] ms[i]),
        name_ok(parent, false),
        classes_ok(es),
        names_increasing(es),
        s.cursor matches Some(kc) && kc.0 == parent,
        index_before(s, es),
        !p.fresh,
        p.st.rest == members_emit(ms, parent).0 + tops_emit(es).0,
    ensures
        index_from(p, s) matches Ok(s2) && index_final(s2) == filed(with_members(s, ms))
            + es.map_values(|e: SpecElement| index_entry(e)),
    decreases es.len(), 2nat, ms.len(),
{
    lemma_members_emit(ms, parent);
    lemma_tops_emit(es);
    if ms.len() == 0 {
        assert(p.st.rest =~= tops_emit(es).0);
        assert(with_members(s, ms) == s) by {
            assert(s.cursor->Some_0.1.contents + ms.map_values(|m: SpecElement| described_of(m))
                =~= s.cursor->Some_0.1.contents);
        }
        lemma_index_classes(es, p, s);
    } else {
        let m = ms[0];
        let t = ms.drop_first();
        assert(member_ok(m));
        let rest = members_emit(t, parent).0 + tops_emit(es).0;
        assert(p.st.rest =~= member_line_of(m, parent) + seq![0x0au8] + rest);
        let (kw, d, src, dst) = match m {
            SpecElement::Field { src, dst, desc, .. } => (kw_field(), desc.unwrap(), src, dst),
            SpecElement::Method { src, dst, desc, .. } => (kw_method(), desc.unwrap(), src, dst),
            _ => arbitrary(),
        };
        assert(member_line_of(m, parent) == member_text(kw, parent, d, src, dst));
        lemma_next_member(p, kw, parent, d, src, dst, rest);
        let p1 = next_entry(p).1;
        assert(measure(p1) < measure(p));
        assert forall|i: int| 0 <= i < t.len() implies member_ok(#[trigger] t[i]) by {
            assert(t[i] == ms[i + 1]);
        }
        assert(kw_method() != kw_field());
        lemma_file_member(s, parent, m);
        let s1 = file_described(s, parent, described_of(m));
        assert(index_before(s1, es)) by {
            assert(filed(s1).len() == filed(s).len());
            assert forall|i: int| 0 <= i < filed(s1).len() implies #[trigger] filed(s1)[i].0
                == filed(s)[i].0 by {}
        }
        lemma_index_members(t, parent, p1, s1, es);
        assert(with_members(s1, t) == with_members(s, ms)) by {
            assert(s.cursor->Some_0.1.contents.push(described_of(m)) + t.map_values(
                |x: SpecElement| described_of(x),
            ) =~= s.cursor->Some_0.1.contents + ms.map_values(|x: SpecElement| described_of(x)));
        }
    }
}

/// The index files a faithful member as the member.
pub proof fn lemma_described_back(m: SpecElement)
    requires
        member_ok(m),
    ensures
        described_element(described_of(m)) == m,
{
    match m {
        SpecElement::Field { content, .. } => {
            assert(content =~= Seq::<SpecElement>::empty());
        },
        SpecElement::Method { content, .. } => {
            assert(content =~= Seq::<SpecElement>::empty());
        },
        _ => {},
    }
}

/// The index gives back each faithful class it filed, in order.
pub proof fn lemma_index_elements(es: Seq<SpecElement>, i: int)
    requires
        classes_ok(es),
        0 <= i <= es.len(),
    ensures
        index_elements(es.map_values(|e: SpecElement| index_entry(e)), i) == es.subrange(
            i,
            es.len() as int,
        ),
    decreases es.len() - i,
{
    let map = es.map_values(|e: SpecElement| index_entry(e));
    if i < es.len() {
        lemma_index_elements(es, i + 1);
        let e = es[i];
        assert(class_ok(e));
        let ms = class_members(e);
        assert(map[i] == index_entry(e));
        let dd = ms.map_values(|m: SpecElement| described_of(m));
        let back = dd.map_values(|d: SpecDescribed| described_element(d));
        assert forall|j: int| 0 <= j < ms.len() implies #[trigger] back[j] == ms[j] by {
            assert(member_ok(ms[j]));
            lemma_described_back(ms[j]);
        }
        assert(back =~= ms);
        assert(class_element(map[i].0, map[i].1) == e);
        assert(seq![e] + es.subrange(i + 1, es.len() as int) =~= es.subrange(i, es.len() as int));
    } else {
        assert(es.subrange(i, es.len() as int) =~= Seq::<SpecElement>::empty());
    }
}

/// Law: a Tiny V1 file written from a header and faithful classes in increasing order of their
/// source names reads back, through its index, as those classes with their fields and methods.
pub proof fn lemma_tiny1_index_roundtrip(
    src: Seq<u8>,
    dst: Seq<Seq<u8>>,
    props: Seq<(Seq<u8>, Option<Seq<u8>>)>,
    es: Seq<SpecElement>,
)
    requires
        name_ok(src, false),
        names_ok(dst, false),
        dst.len() > 0,
        props_ok(props),
        classes_ok(es),
        names_increasing(es),
    ensures
        ({
            let text = header_text(src, dst, props) + tops_emit(es).0;
            let (h, p) = header(start_pos(text));
            &&& h is Ok
            &&& index_from(p, index_start()) matches Ok(st) && index_elements(index_final(st), 0)
                == es
        }),
{
    lemma_tops_emit(es);
    lemma_header_read(src, dst, props, es);
    let (h, p) = header(start_pos(header_text(src, dst, props) + tops_emit(es).0));
    assert(index_before(index_start(), es));
    lemma_index_classes(es, p, index_start());
    assert(filed(index_start()) + es.map_values(|e: SpecElement| index_entry(e)) =~= es.map_values(
        |e: SpecElement| index_entry(e),
    ));
    lemma_index_elements(es, 0);
    assert(es.subrange(0, es.len() as int) =~= es);
}

/// On a written file whose classes come in increasing order of source names, the pseudo-tree
/// reader and the index give the same classes.
pub proof fn lemma_tiny1_readers_agree(
    src: Seq<u8>,
    dst: Seq<Seq<u8>>,
    props: Seq<(Seq<u8>, Option<Seq<u8>>)>,
    es: Seq<SpecElement>,
)
    requires
        name_ok(src, false),
        names_ok(dst, false),
        dst.len() > 0,
        props_ok(props),
        classes_ok(es),
        names_increasing(es),
    ensures
        ({
            let text = header_text(src, dst, props) + tops_emit(es).0;
            let (h, p) = header(start_pos(text));
            index_from(p, index_start()) matches Ok(st) && pt_all(
                PtState { pos: p, buf: None, aborted: false },
            ) == Ok::<Seq<SpecElement>, SpecErrorKind>(index_elements(index_final(st), 0))
        }),
{
    lemma_tiny1_roundtrip(src, dst, props, es);
    lemma_tiny1_index_roundtrip(src, dst, props, es);
}

} // verus!
