//! Tiny V2 mapping files: a header line `tiny 2 minor src dst..`, indented property lines, then
//! classes with their fields, methods, parameters, variables and comments, one tab deeper each.
//! Columns are separated by tabs.
use vstd::prelude::*;
use vstd::utf8::{decode_utf8, valid_utf8};
use crate::bytemap::{keys_sorted, lookup, sorted_insert, ByteMap};
use crate::cursor::{
    fetch, fetch_line, lemma_fetch_indent, measure, next_pos, next_pos_line, pos_of, reader_ok,
    LineReader, Pos,
};
use crate::element::{
    elements_view, names_view, Class, Element, Field, Method, MethodArg, MethodVar, SpecElement,
};
use crate::error::{Error, ErrorKind, SpecErrorKind};
use crate::escape::{escape_chars, escape_default, unescape, unescape_outcome};
use crate::io::{
    line_potential, opt_view_vec, spec_read_col, ColState, ColumnReadAdapter, ColumnReader,
    MaybeBorrowed, SliceReader, SmolCowStr,
};
use crate::names::{names_into_vec, names_new, names_of, names_push, NameList};
use crate::enigma::bytes_result;
use crate::proguard::{item_outcome, prepend, read_outcome, start_pos};
use crate::strs::eq_bytes;
use crate::enigma::{height, heights, lemma_heights, push_tabs, tabs};
use crate::text::is_utf8;
use crate::text::{
    decimal, int_error, int_error_message, int_error_of, int_error_text, parse_u16, parse_unsigned,
    parse_usize, push_decimal,
};

verus! {

/// Indentation byte of Tiny V2 files.
pub const INDENT: u8 = 0x09u8;

/// Column separator of Tiny V2 files.
pub const SEPARATOR: u8 = 0x09u8;

/// The property that marks names as escaped.
pub open spec fn escaped_names_key() -> Seq<u8> {
    seq![0x65u8, 0x73u8, 0x63u8, 0x61u8, 0x70u8, 0x65u8, 0x64u8, 0x2du8, 0x6eu8, 0x61u8, 0x6du8, 0x65u8, 0x73u8]
}

/// A name as read: UTF-8, and unescaped when names are escaped.
pub open spec fn name_value(b: Seq<u8>, esc: bool) -> Result<Seq<u8>, SpecErrorKind> {
    if !valid_utf8(b) {
        Err(SpecErrorKind::Utf8)
    } else if esc {
        match unescape_outcome(b) {
            Some(u) => Ok(u),
            None => Err(SpecErrorKind::Unescape),
        }
    } else {
        Ok(b)
    }
}

/// A name column that must be present.
pub open spec fn take_name(st: ColState, esc: bool, section: &'static str) -> (Result<Seq<u8>, SpecErrorKind>, ColState) {
    let (c, st2) = spec_read_col(st, SEPARATOR);
    match c {
        None => (Err(SpecErrorKind::MissingField(section)), st2),
        Some(b) => (name_value(b, esc), st2),
    }
}

/// The names in the columns left on the line.
pub open spec fn take_dsts(st: ColState, esc: bool) -> (Result<Seq<Seq<u8>>, SpecErrorKind>, ColState)
    decreases line_potential(st),
{
    let (c, st2) = spec_read_col(st, SEPARATOR);
    match c {
        None => (Ok(Seq::empty()), st2),
        Some(b) => match name_value(b, esc) {
            Err(e) => (Err(e), st2),
            Ok(n) => if line_potential(st2) < line_potential(st) {
                let (r, st3) = take_dsts(st2, esc);
                match r {
                    Ok(ns) => (Ok(seq![n] + ns), st3),
                    Err(e) => (Err(e), st3),
                }
            } else {
                (Ok(seq![n]), st2)
            },
        },
    }
}

/// The columns of the rest of a line: split at each separator, an empty rest holding none.
pub open spec fn line_cols(line: Option<Seq<u8>>) -> Seq<Seq<u8>> {
    match line {
        Some(l) => crate::cursor::split_cols(l, SEPARATOR),
        None => Seq::empty(),
    }
}

/// Law: the destination names read from the rest of a line are one per column, in order, each
/// the column's name value (an empty column giving an empty name); they are read whenever every
/// column holds a valid name.
pub proof fn lemma_take_dsts_cols(st: ColState, esc: bool)
    ensures
        take_dsts(st, esc).0 matches Ok(ns) ==> ns.len() == line_cols(st.line).len() && forall|i: int|
            0 <= i < ns.len() ==> name_value(#[trigger] line_cols(st.line)[i], esc) == Ok::<
                Seq<u8>,
                SpecErrorKind,
            >(ns[i]),
        (forall|i: int| 0 <= i < line_cols(st.line).len() ==> (#[trigger] name_value(
            line_cols(st.line)[i],
            esc,
        )) is Ok) ==> take_dsts(st, esc).0 is Ok,
    decreases line_potential(st),
{
    crate::io::lemma_read_col_progress(st, SEPARATOR);
    let (c, st2) = spec_read_col(st, SEPARATOR);
    let cols = line_cols(st.line);
    match st.line {
        None => {},
        Some(l) => {
            if l.len() == 0 {
                assert(cols =~= Seq::<Seq<u8>>::empty());
            } else {
                crate::bytes::lemma_find_byte(l, SEPARATOR);
                match crate::bytes::find_byte(l, SEPARATOR) {
                    Some(i) => {
                        assert(cols == seq![l.subrange(0, i)] + crate::cursor::split_cols(
                            l.subrange(i + 1, l.len() as int),
                            SEPARATOR,
                        ));
                        assert(c == Some(l.subrange(0, i)));
                        assert(line_cols(st2.line) == crate::cursor::split_cols(
                            l.subrange(i + 1, l.len() as int),
                            SEPARATOR,
                        ));
                    },
                    None => {
                        assert(cols == seq![l]);
                        assert(st2.line is None);
                    },
                }
                let b = c->Some_0;
                assert(cols[0] == b);
                let rest = line_cols(st2.line);
                assert(cols.drop_first() =~= rest);
                if let Ok(n) = name_value(b, esc) {
                    lemma_take_dsts_cols(st2, esc);
                    if let Ok(ns) = take_dsts(st2, esc).0 {
                        let all = seq![n] + ns;
                        assert forall|j: int| 0 <= j < all.len() implies name_value(
                            #[trigger] cols[j],
                            esc,
                        ) == Ok::<Seq<u8>, SpecErrorKind>(all[j]) by {
                            if j > 0 {
                                assert(cols[j] == rest[j - 1]);
                            }
                        }
                    }
                    assert((forall|j: int| 0 <= j < cols.len() ==> (#[trigger] name_value(cols[j], esc)) is Ok)
                        ==> (forall|j: int| 0 <= j < rest.len() ==> (#[trigger] name_value(rest[j], esc)) is Ok)) by {
                        if forall|j: int| 0 <= j < cols.len() ==> (#[trigger] name_value(cols[j], esc)) is Ok {
                            assert forall|j: int| 0 <= j < rest.len() implies (#[trigger] name_value(rest[j], esc)) is Ok by {
                                assert(rest[j] == cols[j + 1]);
                            }
                        }
                    }
                } else {
                    assert(!((#[trigger] name_value(cols[0], esc)) is Ok));
                }
            }
        },
    }
}

/// A source name column and the names after it.
pub open spec fn take_names(st: ColState, esc: bool, section: &'static str) -> (Result<(Seq<u8>, Seq<Seq<u8>>), SpecErrorKind>, ColState) {
    let (s, st2) = take_name(st, esc, section);
    match s {
        Err(e) => (Err(e), st2),
        Ok(src) => {
            let (d, st3) = take_dsts(st2, esc);
            match d {
                Err(e) => (Err(e), st3),
                Ok(dst) => (Ok((src, dst)), st3),
            }
        },
    }
}

/// An unsigned integer column that must be present.
pub open spec fn take_usize(st: ColState, section: &'static str) -> (Result<usize, SpecErrorKind>, ColState) {
    let (c, st2) = spec_read_col(st, SEPARATOR);
    match c {
        None => (Err(SpecErrorKind::MissingField(section)), st2),
        Some(b) => if !valid_utf8(b) {
            (Err(SpecErrorKind::Utf8), st2)
        } else {
            match parse_unsigned(b, usize::MAX as nat) {
                Some(v) => (Ok(v as usize), st2),
                None => (
                    Err(
                        SpecErrorKind::InvalidValue {
                            found: int_error_message(int_error(b, usize::MAX as nat), true),
                            expected: "unsigned integer",
                        },
                    ),
                    st2,
                ),
            }
        },
    }
}

/// The text `-1`.
pub open spec fn minus_one() -> Seq<u8> {
    seq![0x2du8, 0x31u8]
}

/// The local variable table index column: `-1` for none.
pub open spec fn take_lvt(st: ColState) -> (Result<Option<usize>, SpecErrorKind>, ColState) {
    let (c, st2) = spec_read_col(st, SEPARATOR);
    match c {
        None => (Err(SpecErrorKind::MissingField("lv-start-offset")), st2),
        Some(b) => if !valid_utf8(b) {
            (Err(SpecErrorKind::Utf8), st2)
        } else if b == minus_one() {
            (Ok(None), st2)
        } else {
            match parse_unsigned(b, usize::MAX as nat) {
                Some(v) => (Ok(Some(v as usize)), st2),
                None => (
                    Err(
                        SpecErrorKind::InvalidValue {
                            found: int_error_message(int_error(b, usize::MAX as nat), true),
                            expected: "unsigned integer",
                        },
                    ),
                    st2,
                ),
            }
        },
    }
}

/// An optional source name, and the names after it when it is present.
pub open spec fn take_opt_names(st: ColState, esc: bool) -> (Result<(Option<Seq<u8>>, Option<Seq<Seq<u8>>>), SpecErrorKind>, ColState) {
    let (c, st2) = spec_read_col(st, SEPARATOR);
    match c {
        None => (Ok((None, None)), st2),
        Some(b) => match name_value(b, esc) {
            Err(e) => (Err(e), st2),
            Ok(src) => {
                let (d, st3) = take_dsts(st2, esc);
                match d {
                    Err(e) => (Err(e), st3),
                    Ok(dst) => (Ok((Some(src), Some(dst))), st3),
                }
            },
        },
    }
}

/// What may stand at a depth: the entry types it accepts.
#[derive(Debug, Clone, Copy)]
pub enum Scope {
    /// The top level: classes.
    Top,
    /// Inside a class: comments, fields and methods.
    Class,
    /// Inside a method: comments, parameters and variables.
    Method,
    /// Inside a field, parameter or variable: comments.
    CommentOnly,
}

/// The kind of an entry line.
#[derive(Debug, Clone, Copy)]
pub enum Tag {
    Comment,
    Class,
    Field,
    Method,
    Param,
    Var,
}

/// The entry type `ty` in scope `scope`, if the scope accepts it.
pub open spec fn classify(scope: Scope, ty: Seq<u8>) -> Option<Tag> {
    if ty == seq![0x63u8] {
        match scope {
            Scope::Top => Some(Tag::Class),
            _ => Some(Tag::Comment),
        }
    } else if ty == seq![0x66u8] && scope is Class {
        Some(Tag::Field)
    } else if ty == seq![0x6du8] && scope is Class {
        Some(Tag::Method)
    } else if ty == seq![0x70u8] && scope is Method {
        Some(Tag::Param)
    } else if ty == seq![0x76u8] && scope is Method {
        Some(Tag::Var)
    } else {
        None
    }
}

/// The entry types a scope accepts, as its error message lists them.
pub open spec fn expected(scope: Scope) -> &'static str {
    match scope {
        Scope::Top => "c(class)",
        Scope::Class => "c(comment), f, m",
        Scope::Method => "c(comment), p, v",
        Scope::CommentOnly => "c(comment)",
    }
}

/// The scope of the content of an entry.
pub open spec fn content_scope(tag: Tag) -> Scope {
    match tag {
        Tag::Class => Scope::Class,
        Tag::Method => Scope::Method,
        _ => Scope::CommentOnly,
    }
}

/// The columns of an entry line, before its content.
#[allow(inconsistent_fields)]
pub ghost enum SpecHead {
    Class { src: Seq<u8>, dst: Seq<Seq<u8>> },
    Field { desc: Seq<u8>, src: Seq<u8>, dst: Seq<Seq<u8>> },
    Method { desc: Seq<u8>, src: Seq<u8>, dst: Seq<Seq<u8>> },
    Param { lv: usize, src: Option<Seq<u8>>, dst: Option<Seq<Seq<u8>>> },
    Var {
        lv: usize,
        start: usize,
        lvt: Option<usize>,
        src: Option<Seq<u8>>,
        dst: Option<Seq<Seq<u8>>>,
    },
}

/// The element an entry makes with its content.
pub open spec fn head_element(h: SpecHead, content: Seq<SpecElement>) -> SpecElement {
    match h {
        SpecHead::Class { src, dst } => SpecElement::Class { src, dst, content },
        SpecHead::Field { desc, src, dst } => SpecElement::Field {
            src,
            dst,
            desc: Some(desc),
            dst_desc: None,
            content,
        },
        SpecHead::Method { desc, src, dst } => SpecElement::Method {
            src,
            dst,
            desc: Some(desc),
            dst_desc: None,
            content,
        },
        SpecHead::Param { lv, src, dst } => SpecElement::MethodArg {
            src,
            dst,
            pos: None,
            lv_index: Some(lv),
            content,
        },
        SpecHead::Var { lv, start, lvt, src, dst } => SpecElement::MethodVar {
            src,
            dst,
            lv_index: Some(lv),
            lvt_row_index: lvt,
            op_idx: Some((start, None)),
            content,
        },
    }
}

/// Reading the columns of an entry of kind `tag` (not a comment).
pub open spec fn take_head(tag: Tag, st: ColState, esc: bool) -> (Result<SpecHead, SpecErrorKind>, ColState) {
    match tag {
        Tag::Class => {
            let (r, st2) = take_names(st, esc, "class-name-a");
            match r {
                Err(e) => (Err(e), st2),
                Ok((src, dst)) => (Ok(SpecHead::Class { src, dst }), st2),
            }
        },
        Tag::Field | Tag::Method => {
            let (d, st1) = take_name(st, esc, "field-desc-a");
            match d {
                Err(e) => (Err(e), st1),
                Ok(desc) => {
                    let (r, st2) = take_names(st1, esc, "field-name-a");
                    match r {
                        Err(e) => (Err(e), st2),
                        Ok((src, dst)) => if tag is Field {
                            (Ok(SpecHead::Field { desc, src, dst }), st2)
                        } else {
                            (Ok(SpecHead::Method { desc, src, dst }), st2)
                        },
                    }
                },
            }
        },
        Tag::Param => {
            let (l, st1) = take_usize(st, "lv-index");
            match l {
                Err(e) => (Err(e), st1),
                Ok(lv) => {
                    let (r, st2) = take_opt_names(st1, esc);
                    match r {
                        Err(e) => (Err(e), st2),
                        Ok((src, dst)) => (Ok(SpecHead::Param { lv, src, dst }), st2),
                    }
                },
            }
        },
        _ => {
            let (l, st1) = take_usize(st, "lv-index");
            match l {
                Err(e) => (Err(e), st1),
                Ok(lv) => {
                    let (o, st2) = take_usize(st1, "lv-start-offset");
                    match o {
                        Err(e) => (Err(e), st2),
                        Ok(start) => {
                            let (t, st3) = take_lvt(st2);
                            match t {
                                Err(e) => (Err(e), st3),
                                Ok(lvt) => {
                                    let (r, st4) = take_opt_names(st3, esc);
                                    match r {
                                        Err(e) => (Err(e), st4),
                                        Ok((src, dst)) => (
                                            Ok(SpecHead::Var { lv, start, lvt, src, dst }),
                                            st4,
                                        ),
                                    }
                                },
                            }
                        },
                    }
                },
            }
        },
    }
}

/// A comment: the rest of the line, UTF-8, always unescaped.
pub open spec fn comment_of(line: Option<Seq<u8>>) -> Result<SpecElement, SpecErrorKind> {
    let l = match line {
        Some(l) => l,
        None => Seq::empty(),
    };
    if !valid_utf8(l) {
        Err(SpecErrorKind::Utf8)
    } else {
        match unescape_outcome(l) {
            Some(u) => Ok(SpecElement::Comment(u)),
            None => Err(SpecErrorKind::Unescape),
        }
    }
}

/// The next entry at depth `k` in scope `scope` from position `p`, with its content, and the
/// position after it; `None` once a line at a shallower depth or the end of input stands.
pub open spec fn item(p: Pos, k: usize, scope: Scope, esc: bool) -> (Result<Option<SpecElement>, SpecErrorKind>, Pos)
    decreases measure(p), 0nat,
{
    let (ok, p1) = fetch(p, k, INDENT, false);
    if !ok {
        (Ok(None), p1)
    } else {
        let (c, st2) = spec_read_col(p1.st, SEPARATOR);
        let p2 = Pos { st: st2, fresh: false };
        let ty = match c {
            Some(t) => t,
            None => Seq::empty(),
        };
        match classify(scope, ty) {
            None => (Err(SpecErrorKind::InvalidType { found: ty, expected: expected(scope) }), p2),
            Some(Tag::Comment) => match comment_of(st2.line) {
                Ok(e) => (Ok(Some(e)), p2),
                Err(e) => (Err(e), p2),
            },
            Some(tag) => {
                let (h, st3) = take_head(tag, st2, esc);
                let p3 = Pos { st: st3, fresh: false };
                match h {
                    Err(e) => (Err(e), p3),
                    Ok(head) => if measure(p3) < measure(p) && k < usize::MAX {
                        let (r, p4) = items(p3, (k + 1) as usize, content_scope(tag), esc);
                        match r {
                            Err(e) => (Err(e), p4),
                            Ok(content) => (Ok(Some(head_element(head, content))), p4),
                        }
                    } else {
                        (Ok(None), p3)
                    },
                }
            },
        }
    }
}

/// The entries at depth `k` in scope `scope` from position `p`, until none follows.
pub open spec fn items(p: Pos, k: usize, scope: Scope, esc: bool) -> (Result<Seq<SpecElement>, SpecErrorKind>, Pos)
    decreases measure(p), 1nat,
{
    let (r, p2) = item(p, k, scope, esc);
    match r {
        Err(e) => (Err(e), p2),
        Ok(None) => (Ok(Seq::empty()), p2),
        Ok(Some(e)) => if measure(p2) < measure(p) {
            let (rs, p3) = items(p2, k, scope, esc);
            (prepend(seq![e], rs), p3)
        } else {
            (Ok(seq![e]), p2)
        },
    }
}

/// Whether the names of an entry whose columns after its type are `rest` stay borrowed from the
/// input: always where names are not escaped, else where unescaping leaves them as they are
/// (no backslash).
pub open spec fn names_borrowed(rest: Option<Seq<u8>>, esc: bool) -> bool {
    !esc || (rest matches Some(l) ==> crate::bytes::lacks_byte(l, 0x5cu8))
}

/// Whether a comment with the rest of its line `rest` stays borrowed from the input: comments
/// are always unescaped, which leaves them as they are where they hold no backslash.
pub open spec fn comment_borrowed(rest: Option<Seq<u8>>) -> bool {
    names_borrowed(rest, true)
}

/// For each entry that `item` reads, in order (an entry before its content): whether it is handed
/// out borrowed from the input. Nothing where `item` gives no entry.
pub open spec fn item_flags(p: Pos, k: usize, scope: Scope, esc: bool) -> Seq<bool>
    decreases measure(p), 0nat,
{
    let (ok, p1) = fetch(p, k, INDENT, false);
    if !ok {
        Seq::empty()
    } else {
        let (c, st2) = spec_read_col(p1.st, SEPARATOR);
        let ty = match c {
            Some(t) => t,
            None => Seq::empty(),
        };
        match classify(scope, ty) {
            None => Seq::empty(),
            Some(Tag::Comment) => seq![comment_borrowed(st2.line)],
            Some(tag) => {
                let (h, st3) = take_head(tag, st2, esc);
                let p3 = Pos { st: st3, fresh: false };
                match h {
                    Err(e) => Seq::empty(),
                    Ok(head) => if measure(p3) < measure(p) && k < usize::MAX {
                        seq![names_borrowed(st2.line, esc)] + items_flags(
                            p3,
                            (k + 1) as usize,
                            content_scope(tag),
                            esc,
                        )
                    } else {
                        Seq::empty()
                    },
                }
            },
        }
    }
}

/// For each entry that `items` reads, in order: whether it is handed out borrowed from the input.
pub open spec fn items_flags(p: Pos, k: usize, scope: Scope, esc: bool) -> Seq<bool>
    decreases measure(p), 1nat,
{
    let (r, p2) = item(p, k, scope, esc);
    match r {
        Ok(Some(e)) => if measure(p2) < measure(p) {
            item_flags(p, k, scope, esc) + items_flags(p2, k, scope, esc)
        } else {
            item_flags(p, k, scope, esc)
        },
        _ => Seq::empty(),
    }
}

/// The outcome of reading names.
pub open spec fn names_result(r: Result<NameList, ErrorKind>) -> Result<Seq<Seq<u8>>, SpecErrorKind> {
    match r {
        Ok(l) => Ok(names_of(l)),
        Err(k) => Err(k@),
    }
}

/// `pre` before the names of `r`, if `r` succeeded.
pub open spec fn prefix_names(pre: Seq<Seq<u8>>, r: Result<Seq<Seq<u8>>, SpecErrorKind>) -> Result<Seq<Seq<u8>>, SpecErrorKind> {
    match r {
        Ok(ns) => Ok(pre + ns),
        Err(e) => Err(e),
    }
}

/// A name from its column, as `name_value` gives it. It stays borrowed from the input where
/// the column is and unescaping left it as it was (no backslash); otherwise it is owned.
pub fn make_smol_cow_str<'s, 'de>(m: MaybeBorrowed<'s, 'de, [u8]>, esc: bool) -> (r: Result<SmolCowStr<'de>, ErrorKind>)
    ensures
        match r {
            Ok(c) => name_value(m.value()@, esc) == Ok::<Seq<u8>, SpecErrorKind>(c.value())
                && (c is Borrowed) == (m is Borrowed && (!esc || crate::bytes::lacks_byte(m.value()@, 0x5cu8))),
            Err(k) => name_value(m.value()@, esc) == Err::<Seq<u8>, SpecErrorKind>(k@),
        },
{
    let b = m.as_short();
    if !is_utf8(b) {
        return Err(ErrorKind::Utf8);
    }
    if esc {
        let u = match unescape(b) {
            Some(u) => u,
            None => {
                return Err(ErrorKind::Unescape);
            },
        };
        let plain = crate::io::find_first(0x5cu8, b).is_none();
        proof {
            crate::bytes::lemma_find_byte(b@, 0x5cu8);
            if !plain {
                let i = crate::bytes::find_byte(b@, 0x5cu8)->Some_0;
                assert(b@[i] == 0x5cu8);
            }
        }
        match m.as_borrowed() {
            Some(bb) => if plain {
                Ok(SmolCowStr::Borrowed(bb))
            } else {
                Ok(SmolCowStr::Owned(u))
            },
            None => Ok(SmolCowStr::Owned(u)),
        }
    } else {
        Ok(SmolCowStr::from_maybe(m))
    }
}

/// A name as read from its column.
fn name_from<'s, 'de>(m: MaybeBorrowed<'s, 'de, [u8]>, esc: bool) -> (r: Result<Vec<u8>, ErrorKind>)
    ensures
        bytes_result(r) == name_value(m.value()@, esc),
{
    match make_smol_cow_str(m, esc) {
        Ok(c) => Ok(c.into_vec()),
        Err(k) => Err(k),
    }
}

/// Reads a name column that must be present.
fn read_name<'de>(read: &mut LineReader<'de>, esc: bool, section: &'static str) -> (r: Result<Vec<u8>, ErrorKind>)
    requires
        reader_ok(*old(read), INDENT, SEPARATOR),
    ensures
        reader_ok(*final(read), INDENT, SEPARATOR),
        bytes_result(r) == take_name(old(read).spec_state(), esc, section).0,
        pos_of(*final(read)) == (Pos { st: take_name(old(read).spec_state(), esc, section).1, fresh: false }),
{
    match read.read_col() {
        None => Err(ErrorKind::MissingField(section)),
        Some(m) => name_from(m, esc),
    }
}

/// Reads the names in the columns left on the line.
fn read_dsts<'de>(read: &mut LineReader<'de>, esc: bool) -> (r: Result<NameList, ErrorKind>)
    requires
        reader_ok(*old(read), INDENT, SEPARATOR),
    ensures
        reader_ok(*final(read), INDENT, SEPARATOR),
        names_result(r) == take_dsts(old(read).spec_state(), esc).0,
        pos_of(*final(read)) == (Pos { st: take_dsts(old(read).spec_state(), esc).1, fresh: false }),
{
    let mut out = names_new();
    let ghost st0 = read.spec_state();
    proof {
        assert(Seq::<Seq<u8>>::empty() + Seq::<Seq<u8>>::empty() =~= Seq::<Seq<u8>>::empty());
        if let Ok(ns) = take_dsts(st0, esc).0 {
            assert(Seq::<Seq<u8>>::empty() + ns =~= ns);
        }
    }
    loop
        invariant
            reader_ok(*read, INDENT, SEPARATOR),
            st0 == old(read).spec_state(),
            names_of(out).len() + line_potential(read.spec_state()) <= line_potential(st0),
            line_potential(st0) <= usize::MAX,
            take_dsts(st0, esc).0 == prefix_names(names_of(out), take_dsts(read.spec_state(), esc).0),
            take_dsts(st0, esc).1 == take_dsts(read.spec_state(), esc).1,
        decreases line_potential(read.spec_state()),
    {
        let ghost st = read.spec_state();
        proof {
            crate::io::lemma_read_col_progress(st, SEPARATOR);
        }
        let c = read.read_col();
        let n = match c {
            None => {
                proof {
                    assert(names_of(out) + Seq::<Seq<u8>>::empty() =~= names_of(out));
                }
                return Ok(out);
            },
            Some(m) => name_from(m, esc),
        };
        match n {
            Err(e) => {
                return Err(e);
            },
            Ok(v) => {
                let ghost before = names_of(out);
                names_push(&mut out, v);
                proof {
                    if let Ok(rest) = take_dsts(read.spec_state(), esc).0 {
                        assert(before + (seq![v@] + rest) =~= names_of(out) + rest);
                    }
                }
            },
        }
    }
}

/// Reads an unsigned integer column that must be present.
fn read_usize<'de>(read: &mut LineReader<'de>, section: &'static str) -> (r: Result<usize, ErrorKind>)
    requires
        reader_ok(*old(read), INDENT, SEPARATOR),
    ensures
        reader_ok(*final(read), INDENT, SEPARATOR),
        match r {
            Ok(v) => take_usize(old(read).spec_state(), section).0 == Ok::<usize, SpecErrorKind>(v),
            Err(k) => take_usize(old(read).spec_state(), section).0 == Err::<usize, SpecErrorKind>(k@),
        },
        pos_of(*final(read)) == (Pos { st: take_usize(old(read).spec_state(), section).1, fresh: false }),
{
    match read.read_col() {
        None => Err(ErrorKind::MissingField(section)),
        Some(m) => {
            let b = m.as_short();
            if !is_utf8(b) {
                Err(ErrorKind::Utf8)
            } else {
                match parse_usize(b) {
                    Some(v) => Ok(v),
                    None => Err(
                        ErrorKind::InvalidValue {
                            found: int_error_text(int_error_of(b, usize::MAX), true),
                            expected: "unsigned integer",
                        },
                    ),
                }
            }
        },
    }
}

/// Reads the local variable table index column: `-1` for none.
fn read_lvt<'de>(read: &mut LineReader<'de>) -> (r: Result<Option<usize>, ErrorKind>)
    requires
        reader_ok(*old(read), INDENT, SEPARATOR),
    ensures
        reader_ok(*final(read), INDENT, SEPARATOR),
        match r {
            Ok(v) => take_lvt(old(read).spec_state()).0 == Ok::<Option<usize>, SpecErrorKind>(v),
            Err(k) => take_lvt(old(read).spec_state()).0 == Err::<Option<usize>, SpecErrorKind>(k@),
        },
        pos_of(*final(read)) == (Pos { st: take_lvt(old(read).spec_state()).1, fresh: false }),
{
    let m1: [u8; 2] = [0x2d, 0x31];
    assert(m1@ == minus_one());
    match read.read_col() {
        None => Err(ErrorKind::MissingField("lv-start-offset")),
        Some(m) => {
            let b = m.as_short();
            if !is_utf8(b) {
                Err(ErrorKind::Utf8)
            } else if eq_bytes(b, &m1) {
                Ok(None)
            } else {
                match parse_usize(b) {
                    Some(v) => Ok(Some(v)),
                    None => Err(
                        ErrorKind::InvalidValue {
                            found: int_error_text(int_error_of(b, usize::MAX), true),
                            expected: "unsigned integer",
                        },
                    ),
                }
            }
        },
    }
}

/// The outcome of reading an optional source name and the names after it.
pub open spec fn opt_names_result(r: Result<(Option<Vec<u8>>, Option<NameList>), ErrorKind>) -> Result<(Option<Seq<u8>>, Option<Seq<Seq<u8>>>), SpecErrorKind> {
    match r {
        Ok((s, d)) => Ok((opt_view_vec(s), match d {
            Some(l) => Some(names_of(l)),
            None => None,
        })),
        Err(k) => Err(k@),
    }
}

/// Reads an optional source name, and the names after it when it is present.
fn read_opt_names<'de>(read: &mut LineReader<'de>, esc: bool) -> (r: Result<(Option<Vec<u8>>, Option<NameList>), ErrorKind>)
    requires
        reader_ok(*old(read), INDENT, SEPARATOR),
    ensures
        reader_ok(*final(read), INDENT, SEPARATOR),
        opt_names_result(r) == take_opt_names(old(read).spec_state(), esc).0,
        pos_of(*final(read)) == (Pos { st: take_opt_names(old(read).spec_state(), esc).1, fresh: false }),
{
    let src = match read.read_col() {
        None => {
            return Ok((None, None));
        },
        Some(m) => name_from(m, esc),
    };
    match src {
        Err(e) => Err(e),
        Ok(s) => match read_dsts(read, esc) {
            Err(e) => Err(e),
            Ok(d) => Ok((Some(s), Some(d))),
        },
    }
}

/// The columns of an entry line, before its content.
#[allow(inconsistent_fields)]
pub enum Head {
    Class { src: Vec<u8>, dst: NameList },
    Field { desc: Vec<u8>, src: Vec<u8>, dst: NameList },
    Method { desc: Vec<u8>, src: Vec<u8>, dst: NameList },
    Param { lv: usize, src: Option<Vec<u8>>, dst: Option<NameList> },
    Var { lv: usize, start: usize, lvt: Option<usize>, src: Option<Vec<u8>>, dst: Option<NameList> },
}

/// The names of an optional list.
pub open spec fn opt_names_of(d: Option<NameList>) -> Option<Seq<Seq<u8>>> {
    match d {
        Some(l) => Some(names_of(l)),
        None => None,
    }
}

impl Head {
    /// The abstract head.
    pub open spec fn view(&self) -> SpecHead {
        match self {
            Head::Class { src, dst } => SpecHead::Class { src: src@, dst: names_of(*dst) },
            Head::Field { desc, src, dst } => SpecHead::Field { desc: desc@, src: src@, dst: names_of(*dst) },
            Head::Method { desc, src, dst } => SpecHead::Method { desc: desc@, src: src@, dst: names_of(*dst) },
            Head::Param { lv, src, dst } => SpecHead::Param { lv: *lv, src: opt_view_vec(*src), dst: opt_names_of(*dst) },
            Head::Var { lv, start, lvt, src, dst } => SpecHead::Var {
                lv: *lv,
                start: *start,
                lvt: *lvt,
                src: opt_view_vec(*src),
                dst: opt_names_of(*dst),
            },
        }
    }

    /// Completes the element with its content.
    pub fn build(self, content: Vec<Element>) -> (r: Element)
        ensures
            r.view() == head_element(self.view(), elements_view(content@)),
    {
        match self {
            Head::Class { src, dst } => Element::Class(Class { src, dst: names_into_vec(dst), content }),
            Head::Field { desc, src, dst } => Element::Field(
                Field { src, dst: names_into_vec(dst), desc: Some(desc), dst_desc: None, content },
            ),
            Head::Method { desc, src, dst } => Element::Method(
                Method { src, dst: names_into_vec(dst), desc: Some(desc), dst_desc: None, content },
            ),
            Head::Param { lv, src, dst } => {
                let dst = match dst {
                    Some(l) => Some(names_into_vec(l)),
                    None => None,
                };
                Element::MethodArg(MethodArg { src, dst, pos: None, lv_index: Some(lv), content })
            },
            Head::Var { lv, start, lvt, src, dst } => {
                let dst = match dst {
                    Some(l) => Some(names_into_vec(l)),
                    None => None,
                };
                Element::MethodVar(
                    MethodVar {
                        src,
                        dst,
                        lv_index: Some(lv),
                        lvt_row_index: lvt,
                        op_idx: Some((start, None)),
                        content,
                    },
                )
            },
        }
    }
}

/// The outcome of reading a head.
pub open spec fn head_result(r: Result<Head, ErrorKind>) -> Result<SpecHead, SpecErrorKind> {
    match r {
        Ok(h) => Ok(h.view()),
        Err(k) => Err(k@),
    }
}

/// Reads the columns of an entry of kind `tag` (not a comment).
fn read_head<'de>(read: &mut LineReader<'de>, tag: Tag, esc: bool) -> (r: Result<Head, ErrorKind>)
    requires
        reader_ok(*old(read), INDENT, SEPARATOR),
        !(tag is Comment),
    ensures
        reader_ok(*final(read), INDENT, SEPARATOR),
        head_result(r) == take_head(tag, old(read).spec_state(), esc).0,
        pos_of(*final(read)) == (Pos { st: take_head(tag, old(read).spec_state(), esc).1, fresh: false }),
{
    match tag {
        Tag::Class => {
            let src = match read_name(read, esc, "class-name-a") {
                Err(e) => {
                    return Err(e);
                },
                Ok(v) => v,
            };
            match read_dsts(read, esc) {
                Err(e) => Err(e),
                Ok(dst) => Ok(Head::Class { src, dst }),
            }
        },
        Tag::Field | Tag::Method => {
            let desc = match read_name(read, esc, "field-desc-a") {
                Err(e) => {
                    return Err(e);
                },
                Ok(v) => v,
            };
            let src = match read_name(read, esc, "field-name-a") {
                Err(e) => {
                    return Err(e);
                },
                Ok(v) => v,
            };
            match read_dsts(read, esc) {
                Err(e) => Err(e),
                Ok(dst) => match tag {
                    Tag::Field => Ok(Head::Field { desc, src, dst }),
                    _ => Ok(Head::Method { desc, src, dst }),
                },
            }
        },
        Tag::Param => {
            let lv = match read_usize(read, "lv-index") {
                Err(e) => {
                    return Err(e);
                },
                Ok(v) => v,
            };
            match read_opt_names(read, esc) {
                Err(e) => Err(e),
                Ok((src, dst)) => Ok(Head::Param { lv, src, dst }),
            }
        },
        _ => {
            let lv = match read_usize(read, "lv-index") {
                Err(e) => {
                    return Err(e);
                },
                Ok(v) => v,
            };
            let start = match read_usize(read, "lv-start-offset") {
                Err(e) => {
                    return Err(e);
                },
                Ok(v) => v,
            };
            let lvt = match read_lvt(read) {
                Err(e) => {
                    return Err(e);
                },
                Ok(v) => v,
            };
            match read_opt_names(read, esc) {
                Err(e) => Err(e),
                Ok((src, dst)) => Ok(Head::Var { lv, start, lvt, src, dst }),
            }
        },
    }
}

/// The entry type `ty` in scope `scope`, if the scope accepts it.
fn classify_type(scope: Scope, ty: &[u8]) -> (r: Option<Tag>)
    ensures
        r == classify(scope, ty@),
{
    if ty.len() != 1 {
        assert(ty@ != seq![0x63u8] && ty@ != seq![0x66u8] && ty@ != seq![0x6du8] && ty@ != seq![0x70u8] && ty@ != seq![0x76u8]);
        return None;
    }
    let b = ty[0];
    assert(ty@ == seq![b]);
    if b == 0x63u8 {
        match scope {
            Scope::Top => Some(Tag::Class),
            _ => Some(Tag::Comment),
        }
    } else if b == 0x66u8 && matches!(scope, Scope::Class) {
        Some(Tag::Field)
    } else if b == 0x6du8 && matches!(scope, Scope::Class) {
        Some(Tag::Method)
    } else if b == 0x70u8 && matches!(scope, Scope::Method) {
        Some(Tag::Param)
    } else if b == 0x76u8 && matches!(scope, Scope::Method) {
        Some(Tag::Var)
    } else {
        None
    }
}

/// The entry types a scope accepts, as its error message lists them.
fn expected_text(scope: Scope) -> (r: &'static str)
    ensures
        r == expected(scope),
{
    match scope {
        Scope::Top => "c(class)",
        Scope::Class => "c(comment), f, m",
        Scope::Method => "c(comment), p, v",
        Scope::CommentOnly => "c(comment)",
    }
}

/// The scope of the content of an entry.
fn scope_of(tag: Tag) -> (r: Scope)
    ensures
        r == content_scope(tag),
{
    match tag {
        Tag::Class => Scope::Class,
        Tag::Method => Scope::Method,
        _ => Scope::CommentOnly,
    }
}

proof fn lemma_take_dsts_rest(st: ColState, esc: bool)
    ensures
        take_dsts(st, esc).1.rest == st.rest,
    decreases line_potential(st),
{
    crate::io::lemma_read_col_progress(st, SEPARATOR);
    let (c, st2) = spec_read_col(st, SEPARATOR);
    if c is Some && line_potential(st2) < line_potential(st) {
        lemma_take_dsts_rest(st2, esc);
    }
}

/// Reading the columns of an entry stays on its line.
proof fn lemma_take_head_rest(tag: Tag, st: ColState, esc: bool)
    ensures
        take_head(tag, st, esc).1.rest == st.rest,
{
    crate::io::lemma_read_col_progress(st, SEPARATOR);
    let st1 = spec_read_col(st, SEPARATOR).1;
    crate::io::lemma_read_col_progress(st1, SEPARATOR);
    let st2 = spec_read_col(st1, SEPARATOR).1;
    crate::io::lemma_read_col_progress(st2, SEPARATOR);
    let st3 = spec_read_col(st2, SEPARATOR).1;
    crate::io::lemma_read_col_progress(st3, SEPARATOR);
    let st4 = spec_read_col(st3, SEPARATOR).1;
    crate::io::lemma_read_col_progress(st4, SEPARATOR);
    lemma_take_dsts_rest(st1, esc);
    lemma_take_dsts_rest(st2, esc);
    lemma_take_dsts_rest(st3, esc);
    lemma_take_dsts_rest(st4, esc);
    lemma_take_dsts_rest(spec_read_col(st4, SEPARATOR).1, esc);
}

pub proof fn lemma_item_measure(p: Pos, k: usize, scope: Scope, esc: bool)
    ensures
        measure(item(p, k, scope, esc).1) <= measure(p),
        item(p, k, scope, esc).0 matches Ok(Some(_)) ==> measure(item(p, k, scope, esc).1) < measure(p),
    decreases measure(p), 0nat,
{
    crate::cursor::lemma_fetch_le(p, k, INDENT, false);
    let (ok, p1) = fetch(p, k, INDENT, false);
    if ok {
        crate::io::lemma_read_col_progress(p1.st, SEPARATOR);
        let (c, st2) = spec_read_col(p1.st, SEPARATOR);
        let ty = match c {
            Some(t) => t,
            None => Seq::empty(),
        };
        if let Some(tag) = classify(scope, ty) {
            if !(tag is Comment) {
                lemma_take_head_rest(tag, st2, esc);
                let (h, st3) = take_head(tag, st2, esc);
                let p3 = Pos { st: st3, fresh: false };
                if h is Ok && measure(p3) < measure(p) && k < usize::MAX {
                    lemma_items_measure(p3, (k + 1) as usize, content_scope(tag), esc);
                }
            }
        }
    }
}

pub proof fn lemma_items_measure(p: Pos, k: usize, scope: Scope, esc: bool)
    ensures
        measure(items(p, k, scope, esc).1) <= measure(p),
    decreases measure(p), 1nat,
{
    lemma_item_measure(p, k, scope, esc);
    let (r, p2) = item(p, k, scope, esc);
    if let Ok(Some(e)) = r {
        if measure(p2) < measure(p) {
            lemma_items_measure(p2, k, scope, esc);
        }
    }
}

/// Reads the next entry at depth `k` in scope `scope`, with its content.
fn deserialize_item<'de>(read: &mut LineReader<'de>, k: usize, scope: Scope, esc: bool, flags: &mut Vec<bool>) -> (r: Result<Option<Element>, Error>)
    requires
        reader_ok(*old(read), INDENT, SEPARATOR),
    ensures
        r matches Ok(Some(_)) ==> final(flags)@ == old(flags)@ + item_flags(pos_of(*old(read)), k, scope, esc),
        r matches Ok(None) ==> final(flags)@ == old(flags)@,
        reader_ok(*final(read), INDENT, SEPARATOR),
        item_outcome(r, item(pos_of(*old(read)), k, scope, esc).0),
        pos_of(*final(read)) == item(pos_of(*old(read)), k, scope, esc).1,
        r matches Err(e) ==> e.line == final(read).spec_line() && e.col == final(read).spec_col(),
    decreases measure(pos_of(*old(read))), 0nat,
{
    let ghost p = pos_of(*read);
    proof {
        crate::cursor::lemma_fetch_le(p, k, INDENT, false);
        lemma_fetch_indent(p, k, INDENT, false);
    }
    if !fetch_line(read, k, false) {
        return Ok(None);
    }
    let ghost p1 = pos_of(*read);
    proof {
        crate::io::lemma_read_col_progress(p1.st, SEPARATOR);
    }
    let c = read.read_col();
    let ty: Vec<u8> = match c {
        Some(m) => crate::strs::to_vec(m.as_short()),
        None => Vec::new(),
    };
    let ghost st2 = read.spec_state();
    let plain = line_plain(read);
    let tag = match classify_type(scope, ty.as_slice()) {
        None => {
            let e = Error::new(ErrorKind::InvalidType { found: ty, expected: expected_text(scope) });
            return Err(e.with_loc(read.line(), read.col()));
        },
        Some(t) => t,
    };
    if let Tag::Comment = tag {
        let r = match read.this_line() {
            None => {
                let empty: [u8; 0] = [];
                assert(empty@ =~= Seq::<u8>::empty());
                comment_from(&empty)
            },
            Some(l) => comment_from(l.as_short()),
        };
        return match r {
            Ok(e) => {
                flags.push(plain);
                Ok(Some(e))
            },
            Err(kind) => Err(Error::new(kind).with_loc(read.line(), read.col())),
        };
    }
    proof {
        lemma_take_head_rest(tag, st2, esc);
    }
    let head = match read_head(read, tag, esc) {
        Err(kind) => {
            return Err(Error::new(kind).with_loc(read.line(), read.col()));
        },
        Ok(h) => h,
    };
    flags.push(!esc || plain);
    let content = match deserialize_items(read, k + 1, scope_of(tag), esc, flags) {
        Err(e) => {
            return Err(e);
        },
        Ok(v) => v,
    };
    Ok(Some(head.build(content)))
}

/// One step of `items_flags`: an entry's flags, then those of the entries after it.
proof fn lemma_items_flags_step(p: Pos, k: usize, scope: Scope, esc: bool)
    ensures
        item(p, k, scope, esc).0 matches Ok(None) ==> items_flags(p, k, scope, esc) == Seq::<bool>::empty(),
        item(p, k, scope, esc).0 matches Ok(Some(_)) && measure(item(p, k, scope, esc).1) < measure(p)
            ==> items_flags(p, k, scope, esc) == item_flags(p, k, scope, esc) + items_flags(
            item(p, k, scope, esc).1,
            k,
            scope,
            esc,
        ),
{
}

/// Whether the current line, as it stands, holds no backslash.
fn line_plain<'de>(read: &LineReader<'de>) -> (r: bool)
    requires
        reader_ok(*read, INDENT, SEPARATOR),
    ensures
        r == (read.spec_state().line matches Some(l) ==> crate::bytes::lacks_byte(l, 0x5cu8)),
{
    match read.this_line() {
        None => true,
        Some(l) => {
            let b = l.as_short();
            proof {
                crate::bytes::lemma_find_byte(b@, 0x5cu8);
            }
            let r = crate::io::find_first(0x5cu8, b).is_none();
            proof {
                if !r {
                    let i = crate::bytes::find_byte(b@, 0x5cu8)->Some_0;
                    assert(b@[i] == 0x5cu8);
                }
            }
            r
        },
    }
}

/// Reads the entries at depth `k` in scope `scope` until none follows.
#[verifier::spinoff_prover]
#[verifier::rlimit(40)]
fn deserialize_items<'de>(read: &mut LineReader<'de>, k: usize, scope: Scope, esc: bool, flags: &mut Vec<bool>) -> (r: Result<Vec<Element>, Error>)
    requires
        reader_ok(*old(read), INDENT, SEPARATOR),
    ensures
        r is Ok ==> final(flags)@ == old(flags)@ + items_flags(pos_of(*old(read)), k, scope, esc),
        reader_ok(*final(read), INDENT, SEPARATOR),
        read_outcome(r, items(pos_of(*old(read)), k, scope, esc).0),
        pos_of(*final(read)) == items(pos_of(*old(read)), k, scope, esc).1,
        r matches Err(e) ==> e.line == final(read).spec_line() && e.col == final(read).spec_col(),
    decreases measure(pos_of(*old(read))), 1nat,
{
    let mut out: Vec<Element> = Vec::new();
    let ghost p0 = pos_of(*read);
    proof {
        assert(elements_view(out@) == Seq::<SpecElement>::empty());
        if let Ok(es) = items(p0, k, scope, esc).0 {
            assert(Seq::<SpecElement>::empty() + es == es);
        }
    }
    loop
        invariant
            reader_ok(*read, INDENT, SEPARATOR),
            p0 == pos_of(*old(read)),
            measure(pos_of(*read)) <= measure(p0),
            items(p0, k, scope, esc).0 == prepend(elements_view(out@), items(pos_of(*read), k, scope, esc).0),
            items(p0, k, scope, esc).1 == items(pos_of(*read), k, scope, esc).1,
            old(flags)@ + items_flags(p0, k, scope, esc) == flags@ + items_flags(pos_of(*read), k, scope, esc),
        decreases measure(pos_of(*read)),
    {
        let ghost p = pos_of(*read);
        let ghost before_flags = flags@;
        proof {
            lemma_item_measure(p, k, scope, esc);
            lemma_items_flags_step(p, k, scope, esc);
        }
        match deserialize_item(read, k, scope, esc, flags) {
            Err(e) => {
                return Err(e);
            },
            Ok(None) => {
                proof {
                    assert(elements_view(out@) + Seq::<SpecElement>::empty() == elements_view(out@));
                    assert(flags@ + Seq::<bool>::empty() == flags@);
                }
                return Ok(out);
            },
            Ok(Some(e)) => {
                let ghost before = out@;
                out.push(e);
                proof {
                    assert(before_flags + items_flags(p, k, scope, esc) =~= flags@ + items_flags(pos_of(*read), k, scope, esc));
                    crate::element::lemma_elements_view_push(before, e);
                    if let Ok(rest) = items(pos_of(*read), k, scope, esc).0 {
                        assert(elements_view(before) + (seq![e.view()] + rest) == elements_view(out@)
                            + rest);
                    }
                }
            },
        }
    }
}

/// The outcome of building an element.
pub open spec fn element_result(r: Result<Element, ErrorKind>) -> Result<SpecElement, SpecErrorKind> {
    match r {
        Ok(e) => Ok(e.view()),
        Err(k) => Err(k@),
    }
}

/// A comment from the rest of its line.
fn comment_from(l: &[u8]) -> (r: Result<Element, ErrorKind>)
    ensures
        element_result(r) == comment_of(Some(l@)),
{
    if !is_utf8(l) {
        return Err(ErrorKind::Utf8);
    }
    match unescape(l) {
        Some(u) => Ok(Element::Comment(u)),
        None => Err(ErrorKind::Unescape),
    }
}

/// A version column: a present, UTF-8, unsigned 16-bit integer.
pub open spec fn take_version(st: ColState, section: &'static str) -> (Result<u16, SpecErrorKind>, ColState) {
    let (c, st2) = spec_read_col(st, SEPARATOR);
    match c {
        None => (Err(SpecErrorKind::MissingField(section)), st2),
        Some(b) => if !valid_utf8(b) {
            (Err(SpecErrorKind::Utf8), st2)
        } else {
            match parse_unsigned(b, u16::MAX as nat) {
                Some(v) => (Ok(v as u16), st2),
                None => (
                    Err(
                        SpecErrorKind::InvalidValue {
                            found: int_error_message(int_error(b, u16::MAX as nat), false),
                            expected: "unsigned integer",
                        },
                    ),
                    st2,
                ),
            }
        },
    }
}

/// The header line: a magic column, the major version (which must be 2), the minor version, the
/// source namespace and at least one destination namespace.
pub open spec fn header_line(st: ColState) -> (Result<(Seq<u8>, Seq<Seq<u8>>), SpecErrorKind>, ColState) {
    let (m, st1) = spec_read_col(st, SEPARATOR);
    if m is None {
        (Err(SpecErrorKind::MissingField("magic in tiny2 header")), st1)
    } else {
        let (maj, st2) = take_version(st1, "major-version");
        match maj {
            Err(e) => (Err(e), st2),
            Ok(major) => {
                let (min, st3) = take_version(st2, "minor-version");
                match min {
                    Err(e) => (Err(e), st3),
                    Ok(minor) => if major != 2 {
                        (Err(SpecErrorKind::Version { major, minor }), st3)
                    } else {
                        let (r, st4) = take_names(st3, false, "namespace-a");
                        match r {
                            Err(e) => (Err(e), st4),
                            Ok((src, dst)) => if dst.len() == 0 {
                                (Err(SpecErrorKind::MissingField("namespace-b")), st4)
                            } else {
                                (Ok((src, dst)), st4)
                            },
                        }
                    },
                }
            },
        }
    }
}

/// A property line: a key column and an optional value column, which is unescaped.
pub open spec fn take_prop(st: ColState) -> (Result<(Option<Seq<u8>>, Option<Seq<u8>>), SpecErrorKind>, ColState) {
    let (k, st1) = spec_read_col(st, SEPARATOR);
    if k matches Some(kb) && !valid_utf8(kb) {
        (Err(SpecErrorKind::Utf8), st1)
    } else {
        let (v, st2) = spec_read_col(st1, SEPARATOR);
        match v {
            None => (Ok((k, None)), st2),
            Some(vb) => if !valid_utf8(vb) {
                (Err(SpecErrorKind::Utf8), st2)
            } else {
                match unescape_outcome(vb) {
                    None => (Err(SpecErrorKind::Unescape), st2),
                    Some(u) => (Ok((k, Some(u))), st2),
                }
            },
        }
    }
}

/// The property lines, one tab deep, from position `p`, added to `acc` (a later key replaces the
/// value of an equal one); the position after them, at the first line that is not one.
pub open spec fn props_from(p: Pos, acc: Seq<(Seq<u8>, Option<Seq<u8>>)>) -> (Result<Seq<(Seq<u8>, Option<Seq<u8>>)>, SpecErrorKind>, Pos)
    decreases p.st.rest.len(),
{
    let (r, p1) = next_pos(p, INDENT);
    if r == Some(1usize) {
        let (pr, st2) = take_prop(p1.st);
        let p2 = Pos { st: st2, fresh: false };
        match pr {
            Err(e) => (Err(e), p2),
            Ok((key, val)) => {
                let acc2 = match key {
                    Some(k) => sorted_insert(acc, k, val),
                    None => acc,
                };
                if p2.st.rest.len() < p.st.rest.len() {
                    props_from(p2, acc2)
                } else {
                    (Ok(acc2), p2)
                }
            },
        }
    } else {
        (Ok(acc), p1)
    }
}

/// What the header of a Tiny V2 file holds.
pub ghost struct SpecHeader {
    pub src: Seq<u8>,
    pub dst: Seq<Seq<u8>>,
    pub props: Seq<(Seq<u8>, Option<Seq<u8>>)>,
}

/// Reading the header from position `p`: the first line with content, then the property lines.
pub open spec fn header(p: Pos) -> (Result<SpecHeader, SpecErrorKind>, Pos) {
    let (_, p1) = next_pos(p, INDENT);
    let (h, st2) = header_line(p1.st);
    let p2 = Pos { st: st2, fresh: false };
    match h {
        Err(e) => (Err(e), p2),
        Ok((src, dst)) => {
            let (pr, p3) = props_from(p2, Seq::empty());
            match pr {
                Err(e) => (Err(e), p3),
                Ok(props) => (Ok(SpecHeader { src, dst, props }), p3),
            }
        },
    }
}

/// The property values as bytes.
pub open spec fn props_view(s: Seq<(Seq<u8>, Option<Vec<u8>>)>) -> Seq<(Seq<u8>, Option<Seq<u8>>)> {
    crate::bytemap::text_entries(s)
}

/// Reads a version column.
fn read_version<'de>(read: &mut LineReader<'de>, section: &'static str) -> (r: Result<u16, ErrorKind>)
    requires
        reader_ok(*old(read), INDENT, SEPARATOR),
    ensures
        reader_ok(*final(read), INDENT, SEPARATOR),
        match r {
            Ok(v) => take_version(old(read).spec_state(), section).0 == Ok::<u16, SpecErrorKind>(v),
            Err(k) => take_version(old(read).spec_state(), section).0 == Err::<u16, SpecErrorKind>(k@),
        },
        pos_of(*final(read)) == (Pos { st: take_version(old(read).spec_state(), section).1, fresh: false }),
{
    match read.read_col() {
        None => Err(ErrorKind::MissingField(section)),
        Some(m) => {
            let b = m.as_short();
            if !is_utf8(b) {
                Err(ErrorKind::Utf8)
            } else {
                match parse_u16(b) {
                    Some(v) => Ok(v),
                    None => Err(
                        ErrorKind::InvalidValue {
                            found: int_error_text(int_error_of(b, 65535), false),
                            expected: "unsigned integer",
                        },
                    ),
                }
            }
        },
    }
}

/// Reads the header line.
fn read_header_line<'de>(read: &mut LineReader<'de>) -> (r: Result<(Vec<u8>, NameList), ErrorKind>)
    requires
        reader_ok(*old(read), INDENT, SEPARATOR),
    ensures
        reader_ok(*final(read), INDENT, SEPARATOR),
        match r {
            Ok((s, d)) => header_line(old(read).spec_state()).0 == Ok::<(Seq<u8>, Seq<Seq<u8>>), SpecErrorKind>((s@, names_of(d))),
            Err(k) => header_line(old(read).spec_state()).0 == Err::<(Seq<u8>, Seq<Seq<u8>>), SpecErrorKind>(k@),
        },
        pos_of(*final(read)) == (Pos { st: header_line(old(read).spec_state()).1, fresh: false }),
{
    if read.read_col().is_none() {
        return Err(ErrorKind::MissingField("magic in tiny2 header"));
    }
    let major = match read_version(read, "major-version") {
        Err(e) => {
            return Err(e);
        },
        Ok(v) => v,
    };
    let minor = match read_version(read, "minor-version") {
        Err(e) => {
            return Err(e);
        },
        Ok(v) => v,
    };
    if major != 2 {
        return Err(ErrorKind::Version { major, minor });
    }
    let src = match read_name(read, false, "namespace-a") {
        Err(e) => {
            return Err(e);
        },
        Ok(v) => v,
    };
    let dst = match read_dsts(read, false) {
        Err(e) => {
            return Err(e);
        },
        Ok(v) => v,
    };
    if crate::names::names_as_slice(&dst).len() == 0 {
        return Err(ErrorKind::MissingField("namespace-b"));
    }
    Ok((src, dst))
}

/// Reads the property lines into a map.
fn read_props<'de>(read: &mut LineReader<'de>) -> (r: Result<ByteMap<Option<Vec<u8>>>, ErrorKind>)
    requires
        reader_ok(*old(read), INDENT, SEPARATOR),
    ensures
        reader_ok(*final(read), INDENT, SEPARATOR),
        match r {
            Ok(m) => m.wf() && props_from(pos_of(*old(read)), Seq::empty()).0 == Ok::<Seq<(Seq<u8>, Option<Seq<u8>>)>, SpecErrorKind>(props_view(m.entries())),
            Err(k) => props_from(pos_of(*old(read)), Seq::empty()).0 == Err::<Seq<(Seq<u8>, Option<Seq<u8>>)>, SpecErrorKind>(k@),
        },
        pos_of(*final(read)) == props_from(pos_of(*old(read)), Seq::empty()).1,
{
    let mut props: ByteMap<Option<Vec<u8>>> = ByteMap::new();
    let ghost p0 = pos_of(*read);
    proof {
        assert(props_view(props.entries()) =~= Seq::<(Seq<u8>, Option<Seq<u8>>)>::empty());
    }
    loop
        invariant
            reader_ok(*read, INDENT, SEPARATOR),
            props.wf(),
            p0 == pos_of(*old(read)),
            props_from(p0, Seq::empty()) == props_from(pos_of(*read), props_view(props.entries())),
        decreases read.spec_state().rest.len(),
    {
        let ghost p = pos_of(*read);
        let ghost acc = props.entries();
        proof {
            crate::cursor::lemma_skip_progress(p.st, INDENT);
        }
        let r = next_pos_line(read);
        let one = match r {
            Some(i) => i == 1,
            None => false,
        };
        if !one {
            return Ok(props);
        }
        let key = match read.read_col() {
            None => None,
            Some(m) => {
                let b = m.as_short();
                if !is_utf8(b) {
                    return Err(ErrorKind::Utf8);
                }
                Some(crate::strs::to_vec(b))
            },
        };
        let val = match read.read_col() {
            None => None,
            Some(m) => {
                let b = m.as_short();
                if !is_utf8(b) {
                    return Err(ErrorKind::Utf8);
                }
                match unescape(b) {
                    None => {
                        return Err(ErrorKind::Unescape);
                    },
                    Some(u) => Some(u),
                }
            },
        };
        proof {
            crate::io::lemma_read_col_progress(pos_of(*read).st, SEPARATOR);
        }
        match key {
            Some(k) => {
                proof {
                    crate::bytemap::lemma_map_insert(acc, |v: Option<Vec<u8>>| opt_view_vec(v), k@, val);
                }
                props.insert(k, val);
            },
            None => {},
        }
    }
}

/// Tiny V2 mapping file deserializer.
#[derive(Debug)]
pub struct Deserializer<'de> {
    src: Vec<u8>,
    dst: NameList,
    aborted: bool,
    read: LineReader<'de>,
    props: ByteMap<Option<Vec<u8>>>,
    escaped_names: bool,
    borrowed: Vec<bool>,
}

impl<'de> Deserializer<'de> {
    /// For each entry of the latest read, in order (an entry before its content): whether its
    /// names were handed out borrowed from the input.
    pub closed spec fn spec_borrowed(&self) -> Seq<bool> {
        self.borrowed@
    }

    /// Where the reader stands.
    pub closed spec fn pos(&self) -> Pos {
        pos_of(self.read)
    }

    /// Whether the items have ended.
    pub closed spec fn is_aborted(&self) -> bool {
        self.aborted
    }

    /// The reader's consistency and the property map's order.
    pub closed spec fn wf(&self) -> bool {
        reader_ok(self.read, INDENT, SEPARATOR) && self.props.wf()
    }

    /// The source namespace.
    pub closed spec fn spec_src(&self) -> Seq<u8> {
        self.src@
    }

    /// The destination namespaces.
    pub closed spec fn spec_dst(&self) -> Seq<Seq<u8>> {
        names_of(self.dst)
    }

    /// The properties, in key order.
    pub closed spec fn spec_props(&self) -> Seq<(Seq<u8>, Option<Seq<u8>>)> {
        props_view(self.props.entries())
    }

    /// Whether names are escaped.
    pub closed spec fn escaped(&self) -> bool {
        self.escaped_names
    }

    /// How many lines the reader has taken.
    pub closed spec fn spec_line(&self) -> usize {
        self.read.spec_line()
    }

    /// How many columns the reader has taken on its current line.
    pub closed spec fn spec_col(&self) -> usize {
        self.read.spec_col()
    }

    /// Creates a new Tiny V2 deserializer over a column reader: reads the header and the
    /// properties. Fails where the version is not 2.x or a namespace is missing.
    pub fn new(read: ColumnReadAdapter<SliceReader<'de>>) -> (r: Result<Self, Error>)
        requires
            crate::io::ColumnRead::spec_wf(&read),
            crate::io::col_state_bounded(crate::io::ColumnRead::spec_state(&read)),
        ensures
            ({
                let (h, p) = header(Pos { st: crate::io::ColumnRead::spec_state(&read), fresh: false });
                match h {
                    Ok(hd) => r matches Ok(d) && {
                        &&& d.wf()
                        &&& d.pos() == p
                        &&& !d.is_aborted()
                        &&& d.spec_src() == hd.src
                        &&& d.spec_dst() == hd.dst
                        &&& d.spec_props() == hd.props
                        &&& d.escaped() == (lookup(hd.props, escaped_names_key()) is Some)
                    },
                    Err(k) => r matches Err(e) && e.kind@ == k && e.line == 0 && e.col == 0,
                }
            }),
    {
        let mut reader = ColumnReader::new(INDENT, SEPARATOR, read);
        proof {
            crate::cursor::lemma_skip_slice::<'de>(reader.spec_state(), INDENT);
        }
        let _ = reader.next_line();
        let (src, dst) = match read_header_line(&mut reader) {
            Err(k) => {
                return Err(Error::new(k));
            },
            Ok(v) => v,
        };
        let props = match read_props(&mut reader) {
            Err(k) => {
                return Err(Error::new(k));
            },
            Ok(m) => m,
        };
        let key: [u8; 13] = [0x65, 0x73, 0x63, 0x61, 0x70, 0x65, 0x64, 0x2d, 0x6e, 0x61, 0x6d, 0x65, 0x73];
        assert(key@ == escaped_names_key());
        let escaped_names = props.contains_key(&key);
        proof {
            crate::bytemap::lemma_map_lookup(props.entries(), |v: Option<Vec<u8>>| opt_view_vec(v), key@);
        }
        Ok(Deserializer { src, dst, aborted: false, read: reader, props, escaped_names, borrowed: Vec::new() })
    }

    /// Creates a new deserializer over the given slice.
    pub fn from_slice(slice: &'de [u8]) -> (r: Result<Self, Error>)
        requires
            slice@.len() < usize::MAX,
        ensures
            ({
                let (h, p) = header(start_pos(slice@));
                match h {
                    Ok(hd) => r matches Ok(d) && {
                        &&& d.wf()
                        &&& d.pos() == p
                        &&& !d.is_aborted()
                        &&& d.spec_src() == hd.src
                        &&& d.spec_dst() == hd.dst
                        &&& d.spec_props() == hd.props
                        &&& d.escaped() == (lookup(hd.props, escaped_names_key()) is Some)
                    },
                    Err(k) => r matches Err(e) && e.kind@ == k && e.line == 0 && e.col == 0,
                }
            }),
    {
        Self::new(ColumnReadAdapter::new(SliceReader::new(slice)))
    }
}

impl<'de> Deserializer<'de> {
    /// Returns the source namespace of this mapping.
    pub fn src_namespace(&self) -> (r: &[u8])
        ensures
            r@ == self.spec_src(),
    {
        self.src.as_slice()
    }

    /// Returns the destination namespaces of this mapping, in order.
    pub fn dst_namespaces(&self) -> (r: &[Vec<u8>])
        ensures
            names_view(r@) == self.spec_dst(),
    {
        crate::names::names_as_slice(&self.dst)
    }

    /// Returns the properties of the file, in key order.
    pub fn properties(&self) -> (r: Vec<(&[u8], Option<&[u8]>)>)
        ensures
            r@.len() == self.spec_props().len(),
            forall|i: int| 0 <= i < r@.len() ==> (#[trigger] r@[i]).0@ == self.spec_props()[i].0
                && match r@[i].1 {
                    Some(v) => self.spec_props()[i].1 == Some(v@),
                    None => self.spec_props()[i].1 is None,
                },
    {
        self.props.pairs()
    }

    /// For each entry that the latest `deserialize_any` or `deserialize_all` handed out, in order
    /// (an entry before its content): whether its names were borrowed from the input rather than
    /// unescaped into new text.
    pub fn borrowed_entries(&self) -> (r: &[bool])
        ensures
            r@ == self.spec_borrowed(),
    {
        self.borrowed.as_slice()
    }

    /// Reads the next class with its content; `None` once the classes have ended, and from then on.
    pub fn deserialize_any(&mut self) -> (r: Result<Option<Element>, Error>)
        requires
            old(self).wf(),
        ensures
            final(self).wf(),
            final(self).spec_src() == old(self).spec_src(),
            final(self).spec_dst() == old(self).spec_dst(),
            final(self).spec_props() == old(self).spec_props(),
            final(self).escaped() == old(self).escaped(),
            old(self).is_aborted() ==> (r matches Ok(None) && final(self).pos() == old(self).pos()
                && final(self).is_aborted()),
            !old(self).is_aborted() ==> {
                &&& item_outcome(r, item(old(self).pos(), 0, Scope::Top, old(self).escaped()).0)
                &&& final(self).pos() == item(old(self).pos(), 0, Scope::Top, old(self).escaped()).1
                &&& final(self).is_aborted() == (r matches Ok(None))
            },
            r matches Err(e) ==> e.line == final(self).spec_line() && e.col == final(self).spec_col(),
            r matches Ok(Some(_)) ==> final(self).spec_borrowed() == item_flags(old(self).pos(), 0, Scope::Top, old(self).escaped()),
            r matches Ok(None) ==> final(self).spec_borrowed() == Seq::<bool>::empty(),
    {
        if self.aborted {
            self.borrowed = Vec::new();
            return Ok(None);
        }
        let mut flags: Vec<bool> = Vec::new();
        let r = deserialize_item(&mut self.read, 0, Scope::Top, self.escaped_names, &mut flags);
        self.borrowed = flags;
        if let Ok(None) = r {
            self.aborted = true;
        }
        r
    }

    /// Reads every remaining class with its content.
    pub fn deserialize_all(&mut self) -> (r: Result<Vec<Element>, Error>)
        requires
            old(self).wf(),
        ensures
            final(self).wf(),
            old(self).is_aborted() ==> (r matches Ok(v) && v@.len() == 0),
            !old(self).is_aborted() ==> read_outcome(r, items(old(self).pos(), 0, Scope::Top, old(self).escaped()).0),
            r matches Err(e) ==> e.line == final(self).spec_line() && e.col == final(self).spec_col(),
            r is Ok ==> final(self).spec_borrowed() == (if old(self).is_aborted() {
                Seq::<bool>::empty()
            } else {
                items_flags(old(self).pos(), 0, Scope::Top, old(self).escaped())
            }),
    {
        if self.aborted {
            self.borrowed = Vec::new();
            return Ok(Vec::new());
        }
        let mut flags: Vec<bool> = Vec::new();
        let r = deserialize_items(&mut self.read, 0, Scope::Top, self.escaped_names, &mut flags);
        self.borrowed = flags;
        self.aborted = true;
        r
    }
}

/// What reading a whole Tiny V2 file gives: the classes after the header, or the first error.
pub open spec fn file_items(input: Seq<u8>) -> Result<Seq<SpecElement>, SpecErrorKind> {
    let (h, p) = header(start_pos(input));
    match h {
        Err(e) => Err(e),
        Ok(hd) => items(p, 0, Scope::Top, lookup(hd.props, escaped_names_key()) is Some).0,
    }
}

/// Deserializes the first class of a Tiny V2 mapping, if present.
pub fn from_slice(slice: &[u8]) -> (r: Result<Option<Element>, Error>)
    requires
        slice@.len() < usize::MAX,
    ensures
        ({
            let (h, p) = header(start_pos(slice@));
            match h {
                Err(k) => r matches Err(e) && e.kind@ == k && e.line == 0 && e.col == 0,
                Ok(hd) => item_outcome(
                    r,
                    item(p, 0, Scope::Top, lookup(hd.props, escaped_names_key()) is Some).0,
                ),
            }
        }),
{
    let mut d = match Deserializer::from_slice(slice) {
        Err(e) => {
            return Err(e);
        },
        Ok(d) => d,
    };
    d.deserialize_any()
}

/// Deserializes every class of a Tiny V2 mapping.
pub fn from_slice_all(slice: &[u8]) -> (r: Result<Vec<Element>, Error>)
    requires
        slice@.len() < usize::MAX,
    ensures
        match file_items(slice@) {
            Ok(es) => r matches Ok(v) && elements_view(v@) == es,
            Err(k) => r matches Err(e) && e.kind@ == k,
        },
{
    let mut d = match Deserializer::from_slice(slice) {
        Err(e) => {
            return Err(e);
        },
        Ok(d) => d,
    };
    d.deserialize_all()
}

/// A name as written: escaped when names are escaped.
pub open spec fn name_text(b: Seq<u8>, esc: bool) -> Seq<u8> {
    if esc {
        escape_chars(decode_utf8(b))
    } else {
        b
    }
}

/// Each name after a separator.
pub open spec fn names_text(ns: Seq<Seq<u8>>, esc: bool) -> Seq<u8>
    decreases ns.len(),
{
    if ns.len() == 0 {
        Seq::empty()
    } else {
        names_text(ns.drop_last(), esc) + seq![SEPARATOR] + name_text(ns.last(), esc)
    }
}

/// Whether every name of `ns` is UTF-8.
pub open spec fn all_utf8(ns: Seq<Seq<u8>>) -> bool {
    forall|i: int| 0 <= i < ns.len() ==> valid_utf8(#[trigger] ns[i])
}

/// The text `tiny\t2\t`.
pub open spec fn magic() -> Seq<u8> {
    seq![0x74u8, 0x69u8, 0x6eu8, 0x79u8, 0x09u8, 0x32u8, 0x09u8]
}

/// A property line: the key, and the escaped value when there is one.
pub open spec fn prop_line(k: Seq<u8>, v: Option<Seq<u8>>) -> Seq<u8> {
    seq![SEPARATOR] + k + match v {
        Some(x) => seq![SEPARATOR] + escape_chars(decode_utf8(x)),
        None => Seq::empty(),
    } + seq![0x0au8]
}

/// The property lines in order.
pub open spec fn props_text(ps: Seq<(Seq<u8>, Option<Seq<u8>>)>) -> Seq<u8>
    decreases ps.len(),
{
    if ps.len() == 0 {
        Seq::empty()
    } else {
        props_text(ps.drop_last()) + prop_line(ps.last().0, ps.last().1)
    }
}

/// The header: version 2 with the given minor version, the namespaces, then the property lines.
pub open spec fn header_text(minor: u16, src: Seq<u8>, dst: Seq<Seq<u8>>, props: Seq<(Seq<u8>, Option<Seq<u8>>)>) -> Seq<u8> {
    magic() + decimal(minor as nat) + seq![SEPARATOR] + src + names_text(dst, false) + seq![0x0au8]
        + props_text(props)
}

/// Whether one of the properties is the one that marks names as escaped.
pub open spec fn marks_escaped(props: Seq<(Seq<u8>, Option<Seq<u8>>)>) -> bool {
    exists|i: int| 0 <= i < props.len() && #[trigger] props[i].0 == escaped_names_key()
}

/// The properties given to a serializer, as bytes.
pub open spec fn props_arg(ps: Seq<(&[u8], Option<&[u8]>)>) -> Seq<(Seq<u8>, Option<Seq<u8>>)> {
    ps.map_values(|p: (&[u8], Option<&[u8]>)| (p.0@, match p.1 {
        Some(v) => Some(v@),
        None => None,
    }))
}

/// Appends a name, escaped when names are escaped.
fn push_name(out: &mut Vec<u8>, name: &[u8], esc: bool)
    requires
        esc ==> valid_utf8(name@),
    ensures
        final(out)@ == old(out)@ + name_text(name@, esc),
{
    if esc {
        let e = escape_default(name);
        crate::strs::push_all(out, e.as_slice());
    } else {
        crate::strs::push_all(out, name);
    }
}

/// Appends each name after a separator.
fn push_names(out: &mut Vec<u8>, names: &[Vec<u8>], esc: bool)
    requires
        esc ==> all_utf8(names_view(names@)),
    ensures
        final(out)@ == old(out)@ + names_text(names_view(names@), esc),
{
    let ghost ns = names_view(names@);
    let mut i: usize = 0;
    assert(ns.take(0) =~= Seq::<Seq<u8>>::empty());
    while i < names.len()
        invariant
            i <= names@.len(),
            ns == names_view(names@),
            ns.len() == names@.len(),
            esc ==> all_utf8(ns),
            out@ == old(out)@ + names_text(ns.take(i as int), esc),
        decreases names@.len() - i,
    {
        assert(ns[i as int] == names@[i as int]@);
        out.push(SEPARATOR);
        push_name(out, names[i].as_slice(), esc);
        proof {
            let t = ns.take(i + 1);
            assert(t.drop_last() =~= ns.take(i as int));
            assert(t.last() == ns[i as int]);
        }
        i = i + 1;
    }
    assert(ns.take(i as int) =~= ns);
}

/// Tiny V2 mapping file serializer: writes the header, then classes at the top level.
#[derive(Debug)]
pub struct Serializer<'a> {
    pub escaped_names: bool,
    pub writer: &'a mut Vec<u8>,
}

/// Serializer of the content of an entry, at its depth and in its scope.
#[derive(Debug)]
pub struct ContentSerializer<'a> {
    pub indent: usize,
    pub writer: &'a mut Vec<u8>,
    pub escaped_names: bool,
    pub scope: Scope,
}

impl<'a> Serializer<'a> {
    /// Creates a new Tiny V2 serializer writing into `writer`: writes the header with the
    /// namespaces and the properties. Names are escaped when a property `escaped-names` is given.
    pub fn new(writer: &'a mut Vec<u8>, src: &[u8], dst: &[Vec<u8>], minor_version: u16, props: &[(&[u8], Option<&[u8]>)]) -> (r: Result<Self, Error>)
        requires
            forall|i: int| 0 <= i < props@.len() ==> ((#[trigger] props@[i]).1 matches Some(v) ==> valid_utf8(v@)),
        ensures
            r matches Ok(s) && {
                &&& s.escaped_names == marks_escaped(props_arg(props@))
                &&& s.writer@ == old(writer)@ + header_text(minor_version, src@, names_view(dst@), props_arg(props@))
                &&& *final(s.writer) == *final(writer)
            },
    {
        let m: [u8; 7] = [0x74, 0x69, 0x6e, 0x79, 0x09, 0x32, 0x09];
        assert(m@ == magic());
        crate::strs::push_all(writer, &m);
        push_decimal(writer, minor_version as u64);
        writer.push(SEPARATOR);
        crate::strs::push_all(writer, src);
        push_names(writer, dst, false);
        writer.push(0x0au8);
        let ghost head = writer@;
        let ghost ps = props_arg(props@);
        let key: [u8; 13] = [0x65, 0x73, 0x63, 0x61, 0x70, 0x65, 0x64, 0x2d, 0x6e, 0x61, 0x6d, 0x65, 0x73];
        assert(key@ == escaped_names_key());
        let mut escaped_names = false;
        let mut i: usize = 0;
        assert(ps.take(0) =~= Seq::<(Seq<u8>, Option<Seq<u8>>)>::empty());
        while i < props.len()
            invariant
                i <= props@.len(),
                ps == props_arg(props@),
                ps.len() == props@.len(),
                key@ == escaped_names_key(),
                forall|j: int| 0 <= j < props@.len() ==> ((#[trigger] props@[j]).1 matches Some(v) ==> valid_utf8(v@)),
                writer@ == head + props_text(ps.take(i as int)),
                escaped_names == exists|j: int| 0 <= j < i && #[trigger] ps[j].0 == escaped_names_key(),
            decreases props@.len() - i,
        {
            let (k, v) = props[i];
            assert(ps[i as int] == (k@, match v {
                Some(x) => Some(x@),
                None => None::<Seq<u8>>,
            }));
            if eq_bytes(k, &key) {
                escaped_names = true;
            }
            writer.push(SEPARATOR);
            crate::strs::push_all(writer, k);
            match v {
                Some(x) => {
                    writer.push(SEPARATOR);
                    let e = escape_default(x);
                    crate::strs::push_all(writer, e.as_slice());
                },
                None => {},
            }
            writer.push(0x0au8);
            proof {
                let t = ps.take(i + 1);
                assert(t.drop_last() =~= ps.take(i as int));
                assert(t.last() == ps[i as int]);
                assert(writer@ =~= head + props_text(ps.take(i as int)) + prop_line(ps[i as int].0, ps[i as int].1));
                if escaped_names {
                    if k@ == escaped_names_key() {
                        assert(ps[i as int].0 == escaped_names_key());
                    }
                }
            }
            i = i + 1;
        }
        assert(ps.take(i as int) =~= ps);
        Ok(Serializer { escaped_names, writer })
    }
}

/// The line of a class at depth `depth`.
pub open spec fn class_text(depth: nat, src: Seq<u8>, dst: Seq<Seq<u8>>, esc: bool) -> Seq<u8> {
    tabs(depth) + seq![0x63u8, SEPARATOR] + name_text(src, esc) + names_text(dst, esc) + seq![0x0au8]
}

/// The line of a field (`kw` is `f`) or a method (`kw` is `m`) at depth `depth`.
pub open spec fn member_text(depth: nat, kw: u8, desc: Seq<u8>, src: Seq<u8>, dst: Seq<Seq<u8>>, esc: bool) -> Seq<u8> {
    tabs(depth) + seq![kw, SEPARATOR] + desc + seq![SEPARATOR] + name_text(src, esc) + names_text(
        dst,
        esc,
    ) + seq![0x0au8]
}

/// An optional source name, and its destination names when both are present.
pub open spec fn opt_names_text(src: Option<Seq<u8>>, dst: Option<Seq<Seq<u8>>>, esc: bool) -> Seq<u8> {
    match src {
        None => Seq::empty(),
        Some(sn) => seq![SEPARATOR] + name_text(sn, esc) + match dst {
            Some(d) => names_text(d, esc),
            None => Seq::empty(),
        },
    }
}

/// The line of a parameter at depth `depth`.
pub open spec fn param_text(depth: nat, lv: usize, src: Option<Seq<u8>>, dst: Option<Seq<Seq<u8>>>, esc: bool) -> Seq<u8> {
    tabs(depth) + seq![0x70u8, SEPARATOR] + decimal(lv as nat) + opt_names_text(src, dst, esc) + seq![0x0au8]
}

/// The local variable table index as written: `-1` for none.
pub open spec fn lvt_text(lvt: Option<usize>) -> Seq<u8> {
    match lvt {
        Some(v) => decimal(v as nat),
        None => minus_one(),
    }
}

/// The columns of a variable line up to its names.
pub open spec fn var_head_text(depth: nat, lv: usize, start: usize, lvt: Option<usize>) -> Seq<u8> {
    tabs(depth) + seq![0x76u8, SEPARATOR] + decimal(lv as nat) + seq![SEPARATOR] + decimal(start as nat)
        + seq![SEPARATOR] + lvt_text(lvt)
}

/// The line of a variable at depth `depth`.
pub open spec fn var_text(depth: nat, lv: usize, start: usize, lvt: Option<usize>, src: Option<Seq<u8>>, dst: Option<Seq<Seq<u8>>>, esc: bool) -> Seq<u8> {
    var_head_text(depth, lv, start, lvt) + opt_names_text(src, dst, esc) + seq![0x0au8]
}

/// Appends the columns of a variable line up to its names.
fn push_var_head(out: &mut Vec<u8>, depth: usize, lv: usize, start: usize, lvt: Option<usize>)
    ensures
        final(out)@ == old(out)@ + var_head_text(depth as nat, lv, start, lvt),
{
    push_tabs(out, depth);
    out.push(0x76u8);
    out.push(SEPARATOR);
    push_decimal(out, lv as u64);
    out.push(SEPARATOR);
    push_decimal(out, start as u64);
    out.push(SEPARATOR);
    match lvt {
        Some(v) => push_decimal(out, v as u64),
        None => {
            let m1: [u8; 2] = [0x2d, 0x31];
            assert(m1@ == minus_one());
            crate::strs::push_all(out, &m1);
        },
    }
    assert(out@ =~= old(out)@ + var_head_text(depth as nat, lv, start, lvt));
}

/// The line of a comment at depth `depth`: the text escaped.
pub open spec fn comment_text(depth: nat, c: Seq<u8>) -> Seq<u8> {
    tabs(depth) + seq![0x63u8, SEPARATOR] + escape_chars(decode_utf8(c)) + seq![0x0au8]
}

/// Optional names as bytes.
pub open spec fn opt_slice_names(d: Option<&[Vec<u8>]>) -> Option<Seq<Seq<u8>>> {
    match d {
        Some(x) => Some(names_view(x@)),
        None => None,
    }
}

/// Optional bytes.
pub open spec fn opt_slice(d: Option<&[u8]>) -> Option<Seq<u8>> {
    match d {
        Some(x) => Some(x@),
        None => None,
    }
}

/// The names are fit to be written: UTF-8 where they get escaped.
pub open spec fn writable(src: Option<Seq<u8>>, dst: Option<Seq<Seq<u8>>>, esc: bool) -> bool {
    esc ==> (src matches Some(s) ==> valid_utf8(s)) && (dst matches Some(d) ==> all_utf8(d))
}

/// Appends an optional source name and, when both are present, its destination names.
fn push_opt_names(out: &mut Vec<u8>, src: Option<&[u8]>, dst: Option<&[Vec<u8>]>, esc: bool)
    requires
        writable(opt_slice(src), opt_slice_names(dst), esc),
    ensures
        final(out)@ == old(out)@ + opt_names_text(opt_slice(src), opt_slice_names(dst), esc),
{
    match src {
        None => {},
        Some(sn) => {
            out.push(SEPARATOR);
            push_name(out, sn, esc);
            match dst {
                Some(d) => push_names(out, d, esc),
                None => {},
            }
        },
    }
}

impl<'a> Serializer<'a> {
    /// Comments have no place at the top level.
    pub fn serialize_comment(&mut self, value: &[u8]) -> (r: Result<(), Error>)
        ensures
            r matches Err(e) && e.line == 0 && e.col == 0 && e.kind@ == SpecErrorKind::Unsupported("comment"),
            *final(self) == *old(self),
    {
        Err(Error::new(ErrorKind::Unsupported("comment")))
    }

    /// Writes a class line; what is written to the returned serializer belongs to the class.
    pub fn serialize_class(&mut self, src: &[u8], dst: &[Vec<u8>]) -> (r: Result<ContentSerializer<'_>, Error>)
        requires
            writable(Some(src@), Some(names_view(dst@)), old(self).escaped_names),
        ensures
            r matches Ok(c) && {
                &&& c.indent == 1
                &&& c.scope == Scope::Class
                &&& c.escaped_names == old(self).escaped_names
                &&& c.writer@ == old(self).writer@ + class_text(0, src@, names_view(dst@), old(self).escaped_names)
                &&& final(self).escaped_names == old(self).escaped_names
                &&& *final(self).writer == *final(c.writer)
                &&& *final(final(self).writer) == *final(old(self).writer)
            },
    {
        push_tabs(self.writer, 0);
        self.writer.push(0x63u8);
        self.writer.push(SEPARATOR);
        push_name(self.writer, src, self.escaped_names);
        push_names(self.writer, dst, self.escaped_names);
        self.writer.push(0x0au8);
        assert(self.writer@ =~= old(self).writer@ + class_text(0, src@, names_view(dst@), old(self).escaped_names));
        Ok(ContentSerializer { indent: 1, writer: &mut *self.writer, escaped_names: self.escaped_names, scope: Scope::Class })
    }

    /// Fields have no place at the top level.
    pub fn serialize_field(&mut self, src: &[u8], desc: Option<&[u8]>, dst: &[Vec<u8>], dst_desc: Option<&[Vec<u8>]>) -> (r: Result<ContentSerializer<'_>, Error>)
        ensures
            r matches Err(e) && e.line == 0 && e.col == 0 && e.kind@ == SpecErrorKind::Unsupported("field"),
            *final(self) == *old(self),
    {
        Err(Error::new(ErrorKind::Unsupported("field")))
    }

    /// Methods have no place at the top level.
    pub fn serialize_method(&mut self, src: &[u8], desc: Option<&[u8]>, dst: &[Vec<u8>], dst_desc: Option<&[Vec<u8>]>) -> (r: Result<ContentSerializer<'_>, Error>)
        ensures
            r matches Err(e) && e.line == 0 && e.col == 0 && e.kind@ == SpecErrorKind::Unsupported("method"),
            *final(self) == *old(self),
    {
        Err(Error::new(ErrorKind::Unsupported("method")))
    }

    /// Method parameters have no place at the top level.
    pub fn serialize_method_arg(&mut self, src: Option<&[u8]>, dst: Option<&[Vec<u8>]>, pos: Option<usize>, lv_index: Option<usize>) -> (r: Result<ContentSerializer<'_>, Error>)
        ensures
            r matches Err(e) && e.line == 0 && e.col == 0 && e.kind@ == SpecErrorKind::Unsupported("method parameter"),
            *final(self) == *old(self),
    {
        Err(Error::new(ErrorKind::Unsupported("method parameter")))
    }

    /// Method variables have no place at the top level.
    pub fn serialize_method_var(
        &mut self,
        src: Option<&[u8]>,
        dst: Option<&[Vec<u8>]>,
        lv_index: Option<usize>,
        lvt_row_index: Option<usize>,
        op_idx: Option<(usize, Option<usize>)>,
    ) -> (r: Result<ContentSerializer<'_>, Error>)
        ensures
            r matches Err(e) && e.line == 0 && e.col == 0 && e.kind@ == SpecErrorKind::Unsupported("method variable"),
            *final(self) == *old(self),
    {
        Err(Error::new(ErrorKind::Unsupported("method variable")))
    }
}

impl<'a> ContentSerializer<'a> {
    /// A serializer one level deeper in scope `scope`, writing into the same buffer.
    fn fork(&mut self, scope: Scope) -> (r: ContentSerializer<'_>)
        requires
            old(self).indent < usize::MAX,
        ensures
            r.indent == old(self).indent + 1,
            r.scope == scope,
            r.escaped_names == old(self).escaped_names,
            *r.writer == *old(self).writer,
            final(self).indent == old(self).indent,
            final(self).scope == old(self).scope,
            final(self).escaped_names == old(self).escaped_names,
            *final(self).writer == *final(r.writer),
            *final(final(self).writer) == *final(old(self).writer),
    {
        ContentSerializer { indent: self.indent + 1, writer: &mut *self.writer, escaped_names: self.escaped_names, scope }
    }

    /// Writes a comment line: the text escaped.
    pub fn serialize_comment(&mut self, value: &[u8]) -> (r: Result<(), Error>)
        requires
            valid_utf8(value@),
        ensures
            r is Ok,
            final(self).indent == old(self).indent,
            final(self).scope == old(self).scope,
            final(self).escaped_names == old(self).escaped_names,
            final(self).writer@ == old(self).writer@ + comment_text(old(self).indent as nat, value@),
            *final(final(self).writer) == *final(old(self).writer),
    {
        push_tabs(self.writer, self.indent);
        self.writer.push(0x63u8);
        self.writer.push(SEPARATOR);
        let e = escape_default(value);
        crate::strs::push_all(self.writer, e.as_slice());
        self.writer.push(0x0au8);
        assert(self.writer@ =~= old(self).writer@ + comment_text(old(self).indent as nat, value@));
        Ok(())
    }

    /// Classes have no place inside another entry.
    pub fn serialize_class(&mut self, src: &[u8], dst: &[Vec<u8>]) -> (r: Result<ContentSerializer<'_>, Error>)
        ensures
            r matches Err(e) && e.line == 0 && e.col == 0 && e.kind@ == SpecErrorKind::Unsupported("class"),
            *final(self) == *old(self),
    {
        Err(Error::new(ErrorKind::Unsupported("class")))
    }

    /// Writes a field line, inside a class; a field needs a descriptor.
    pub fn serialize_field(&mut self, src: &[u8], desc: Option<&[u8]>, dst: &[Vec<u8>], dst_desc: Option<&[Vec<u8>]>) -> (r: Result<ContentSerializer<'_>, Error>)
        requires
            old(self).indent < usize::MAX,
            writable(Some(src@), Some(names_view(dst@)), old(self).escaped_names),
        ensures
            !(old(self).scope is Class) ==> (r matches Err(e) && e.line == 0 && e.col == 0 && e.kind@ == SpecErrorKind::Unsupported("field")
                && *final(self) == *old(self)),
            old(self).scope is Class && desc is None ==> (r matches Err(e) && e.line == 0 && e.col == 0 && e.kind@ == SpecErrorKind::MissingToWrite("field-desc-a")
                && *final(self) == *old(self)),
            old(self).scope is Class && desc is Some ==> (r matches Ok(c) && {
                &&& c.indent == old(self).indent + 1
                &&& c.scope == Scope::CommentOnly
                &&& c.escaped_names == old(self).escaped_names
                &&& c.writer@ == old(self).writer@ + member_text(old(self).indent as nat, 0x66u8, desc->Some_0@, src@, names_view(dst@), old(self).escaped_names)
                &&& final(self).indent == old(self).indent
                &&& final(self).scope == old(self).scope
                &&& final(self).escaped_names == old(self).escaped_names
                &&& *final(self).writer == *final(c.writer)
                &&& *final(final(self).writer) == *final(old(self).writer)
            }),
    {
        if !matches!(self.scope, Scope::Class) {
            return Err(Error::new(ErrorKind::Unsupported("field")));
        }
        let d = match desc {
            None => {
                return Err(Error::new(ErrorKind::MissingToWrite("field-desc-a")));
            },
            Some(d) => d,
        };
        self.write_member(0x66u8, d, src, dst);
        Ok(self.fork(Scope::CommentOnly))
    }

    /// Writes a method line, inside a class; a method needs a descriptor.
    pub fn serialize_method(&mut self, src: &[u8], desc: Option<&[u8]>, dst: &[Vec<u8>], dst_desc: Option<&[Vec<u8>]>) -> (r: Result<ContentSerializer<'_>, Error>)
        requires
            old(self).indent < usize::MAX,
            writable(Some(src@), Some(names_view(dst@)), old(self).escaped_names),
        ensures
            !(old(self).scope is Class) ==> (r matches Err(e) && e.line == 0 && e.col == 0 && e.kind@ == SpecErrorKind::Unsupported("method")
                && *final(self) == *old(self)),
            old(self).scope is Class && desc is None ==> (r matches Err(e) && e.line == 0 && e.col == 0 && e.kind@ == SpecErrorKind::MissingToWrite("method-desc-a")
                && *final(self) == *old(self)),
            old(self).scope is Class && desc is Some ==> (r matches Ok(c) && {
                &&& c.indent == old(self).indent + 1
                &&& c.scope == Scope::Method
                &&& c.escaped_names == old(self).escaped_names
                &&& c.writer@ == old(self).writer@ + member_text(old(self).indent as nat, 0x6du8, desc->Some_0@, src@, names_view(dst@), old(self).escaped_names)
                &&& final(self).indent == old(self).indent
                &&& final(self).scope == old(self).scope
                &&& final(self).escaped_names == old(self).escaped_names
                &&& *final(self).writer == *final(c.writer)
                &&& *final(final(self).writer) == *final(old(self).writer)
            }),
    {
        if !matches!(self.scope, Scope::Class) {
            return Err(Error::new(ErrorKind::Unsupported("method")));
        }
        let d = match desc {
            None => {
                return Err(Error::new(ErrorKind::MissingToWrite("method-desc-a")));
            },
            Some(d) => d,
        };
        self.write_member(0x6du8, d, src, dst);
        Ok(self.fork(Scope::Method))
    }

    /// Writes the line of a field or a method.
    fn write_member(&mut self, kw: u8, desc: &[u8], src: &[u8], dst: &[Vec<u8>])
        requires
            writable(Some(src@), Some(names_view(dst@)), old(self).escaped_names),
        ensures
            final(self).indent == old(self).indent,
            final(self).scope == old(self).scope,
            final(self).escaped_names == old(self).escaped_names,
            final(self).writer@ == old(self).writer@ + member_text(old(self).indent as nat, kw, desc@, src@, names_view(dst@), old(self).escaped_names),
            *final(final(self).writer) == *final(old(self).writer),
    {
        push_tabs(self.writer, self.indent);
        self.writer.push(kw);
        self.writer.push(SEPARATOR);
        crate::strs::push_all(self.writer, desc);
        self.writer.push(SEPARATOR);
        push_name(self.writer, src, self.escaped_names);
        push_names(self.writer, dst, self.escaped_names);
        self.writer.push(0x0au8);
        assert(self.writer@ =~= old(self).writer@ + member_text(old(self).indent as nat, kw, desc@, src@, names_view(dst@), old(self).escaped_names));
    }

    /// Writes the line of a variable.
    fn write_var(&mut self, lv: usize, start: usize, lvt_row_index: Option<usize>, src: Option<&[u8]>, dst: Option<&[Vec<u8>]>)
        requires
            writable(opt_slice(src), opt_slice_names(dst), old(self).escaped_names),
        ensures
            final(self).indent == old(self).indent,
            final(self).scope == old(self).scope,
            final(self).escaped_names == old(self).escaped_names,
            final(self).writer@ == old(self).writer@ + var_text(
                old(self).indent as nat,
                lv,
                start,
                lvt_row_index,
                opt_slice(src),
                opt_slice_names(dst),
                old(self).escaped_names,
            ),
            *final(final(self).writer) == *final(old(self).writer),
    {
        push_var_head(self.writer, self.indent, lv, start, lvt_row_index);
        push_opt_names(self.writer, src, dst, self.escaped_names);
        self.writer.push(0x0au8);
        assert(self.writer@ =~= old(self).writer@ + var_text(
            old(self).indent as nat,
            lv,
            start,
            lvt_row_index,
            opt_slice(src),
            opt_slice_names(dst),
            old(self).escaped_names,
        ));
    }

    /// Writes a parameter line, inside a method; a parameter needs its local variable index.
    pub fn serialize_method_arg(&mut self, src: Option<&[u8]>, dst: Option<&[Vec<u8>]>, pos: Option<usize>, lv_index: Option<usize>) -> (r: Result<ContentSerializer<'_>, Error>)
        requires
            old(self).indent < usize::MAX,
            writable(opt_slice(src), opt_slice_names(dst), old(self).escaped_names),
        ensures
            !(old(self).scope is Method) ==> (r matches Err(e) && e.line == 0 && e.col == 0 && e.kind@ == SpecErrorKind::Unsupported("method parameter")
                && *final(self) == *old(self)),
            old(self).scope is Method && lv_index is None ==> (r matches Err(e) && e.line == 0 && e.col == 0 && e.kind@ == SpecErrorKind::MissingToWrite("lv-index")
                && *final(self) == *old(self)),
            old(self).scope is Method && lv_index is Some ==> (r matches Ok(c) && {
                &&& c.indent == old(self).indent + 1
                &&& c.scope == Scope::CommentOnly
                &&& c.escaped_names == old(self).escaped_names
                &&& c.writer@ == old(self).writer@ + param_text(old(self).indent as nat, lv_index->Some_0, opt_slice(src), opt_slice_names(dst), old(self).escaped_names)
                &&& final(self).indent == old(self).indent
                &&& final(self).scope == old(self).scope
                &&& final(self).escaped_names == old(self).escaped_names
                &&& *final(self).writer == *final(c.writer)
                &&& *final(final(self).writer) == *final(old(self).writer)
            }),
    {
        if !matches!(self.scope, Scope::Method) {
            return Err(Error::new(ErrorKind::Unsupported("method parameter")));
        }
        let lv = match lv_index {
            None => {
                return Err(Error::new(ErrorKind::MissingToWrite("lv-index")));
            },
            Some(v) => v,
        };
        push_tabs(self.writer, self.indent);
        self.writer.push(0x70u8);
        self.writer.push(SEPARATOR);
        push_decimal(self.writer, lv as u64);
        push_opt_names(self.writer, src, dst, self.escaped_names);
        self.writer.push(0x0au8);
        assert(self.writer@ =~= old(self).writer@ + param_text(old(self).indent as nat, lv, opt_slice(src), opt_slice_names(dst), old(self).escaped_names));
        Ok(self.fork(Scope::CommentOnly))
    }

    /// Writes a variable line, inside a method; a variable needs its local variable index and
    /// its start offset.
    pub fn serialize_method_var(
        &mut self,
        src: Option<&[u8]>,
        dst: Option<&[Vec<u8>]>,
        lv_index: Option<usize>,
        lvt_row_index: Option<usize>,
        op_idx: Option<(usize, Option<usize>)>,
    ) -> (r: Result<ContentSerializer<'_>, Error>)
        requires
            old(self).indent < usize::MAX,
            writable(opt_slice(src), opt_slice_names(dst), old(self).escaped_names),
        ensures
            !(old(self).scope is Method) ==> (r matches Err(e) && e.line == 0 && e.col == 0 && e.kind@ == SpecErrorKind::Unsupported("method variable")
                && *final(self) == *old(self)),
            old(self).scope is Method && lv_index is None ==> (r matches Err(e) && e.line == 0 && e.col == 0 && e.kind@ == SpecErrorKind::MissingToWrite("lv-index")
                && *final(self) == *old(self)),
            old(self).scope is Method && lv_index is Some && op_idx is None ==> (r matches Err(e) && e.line == 0 && e.col == 0 && e.kind@ == SpecErrorKind::MissingToWrite("lv-start-offset")
                && *final(self) == *old(self)),
            old(self).scope is Method && lv_index is Some && op_idx is Some ==> (r matches Ok(c) && {
                &&& c.indent == old(self).indent + 1
                &&& c.scope == Scope::CommentOnly
                &&& c.escaped_names == old(self).escaped_names
                &&& c.writer@ == old(self).writer@ + var_text(
                    old(self).indent as nat,
                    lv_index->Some_0,
                    op_idx->Some_0.0,
                    lvt_row_index,
                    opt_slice(src),
                    opt_slice_names(dst),
                    old(self).escaped_names,
                )
                &&& final(self).indent == old(self).indent
                &&& final(self).scope == old(self).scope
                &&& final(self).escaped_names == old(self).escaped_names
                &&& *final(self).writer == *final(c.writer)
                &&& *final(final(self).writer) == *final(old(self).writer)
            }),
    {
        if !matches!(self.scope, Scope::Method) {
            return Err(Error::new(ErrorKind::Unsupported("method variable")));
        }
        let lv = match lv_index {
            None => {
                return Err(Error::new(ErrorKind::MissingToWrite("lv-index")));
            },
            Some(v) => v,
        };
        let start = match op_idx {
            None => {
                return Err(Error::new(ErrorKind::MissingToWrite("lv-start-offset")));
            },
            Some((s, _)) => s,
        };
        self.write_var(lv, start, lvt_row_index, src, dst);
        Ok(self.fork(Scope::CommentOnly))
    }
}

/// Whether the names and comments of `e` can be written: comments are UTF-8, and so are names
/// when they get escaped.
pub open spec fn element_ok(e: SpecElement, esc: bool) -> bool
    decreases e,
{
    match e {
        SpecElement::Class { src, dst, content } => writable(Some(src), Some(dst), esc) && elements_ok(content, esc),
        SpecElement::Field { src, dst, content, .. } => writable(Some(src), Some(dst), esc) && elements_ok(content, esc),
        SpecElement::Method { src, dst, content, .. } => writable(Some(src), Some(dst), esc) && elements_ok(content, esc),
        SpecElement::MethodArg { src, dst, content, .. } => writable(src, dst, esc) && elements_ok(content, esc),
        SpecElement::MethodVar { src, dst, content, .. } => writable(src, dst, esc) && elements_ok(content, esc),
        SpecElement::Comment(c) => valid_utf8(c),
    }
}

/// Whether every element of `es` can be written.
pub open spec fn elements_ok(es: Seq<SpecElement>, esc: bool) -> bool
    decreases es,
{
    es.len() == 0 || (element_ok(es[0], esc) && elements_ok(es.subrange(1, es.len() as int), esc))
}

pub proof fn lemma_elements_ok(es: Seq<SpecElement>, esc: bool, i: int)
    requires
        elements_ok(es, esc),
        0 <= i < es.len(),
    ensures
        element_ok(es[i], esc),
    decreases es.len(),
{
    if i > 0 {
        let t = es.subrange(1, es.len() as int);
        lemma_elements_ok(t, esc, i - 1);
        assert(t[i - 1] == es[i]);
    }
}

/// What serializing `e` at depth `depth` in scope `scope` writes, and the error it stops at, if any.
pub open spec fn emit(e: SpecElement, depth: nat, scope: Scope, esc: bool) -> (Seq<u8>, Option<SpecErrorKind>)
    decreases e,
{
    match e {
        SpecElement::Comment(c) => match scope {
            Scope::Top => (Seq::empty(), Some(SpecErrorKind::Unsupported("comment"))),
            _ => (comment_text(depth, c), None),
        },
        SpecElement::Class { src, dst, content } => match scope {
            Scope::Top => {
                let (b, err) = emit_all(content, depth + 1, Scope::Class, esc);
                (class_text(depth, src, dst, esc) + b, err)
            },
            _ => (Seq::empty(), Some(SpecErrorKind::Unsupported("class"))),
        },
        SpecElement::Field { src, dst, desc, content, .. } => match scope {
            Scope::Class => match desc {
                None => (Seq::empty(), Some(SpecErrorKind::MissingToWrite("field-desc-a"))),
                Some(d) => {
                    let (b, err) = emit_all(content, depth + 1, Scope::CommentOnly, esc);
                    (member_text(depth, 0x66u8, d, src, dst, esc) + b, err)
                },
            },
            _ => (Seq::empty(), Some(SpecErrorKind::Unsupported("field"))),
        },
        SpecElement::Method { src, dst, desc, content, .. } => match scope {
            Scope::Class => match desc {
                None => (Seq::empty(), Some(SpecErrorKind::MissingToWrite("method-desc-a"))),
                Some(d) => {
                    let (b, err) = emit_all(content, depth + 1, Scope::Method, esc);
                    (member_text(depth, 0x6du8, d, src, dst, esc) + b, err)
                },
            },
            _ => (Seq::empty(), Some(SpecErrorKind::Unsupported("method"))),
        },
        SpecElement::MethodArg { src, dst, lv_index, content, .. } => match scope {
            Scope::Method => match lv_index {
                None => (Seq::empty(), Some(SpecErrorKind::MissingToWrite("lv-index"))),
                Some(lv) => {
                    let (b, err) = emit_all(content, depth + 1, Scope::CommentOnly, esc);
                    (param_text(depth, lv, src, dst, esc) + b, err)
                },
            },
            _ => (Seq::empty(), Some(SpecErrorKind::Unsupported("method parameter"))),
        },
        SpecElement::MethodVar { src, dst, lv_index, lvt_row_index, op_idx, content } => match scope {
            Scope::Method => match lv_index {
                None => (Seq::empty(), Some(SpecErrorKind::MissingToWrite("lv-index"))),
                Some(lv) => match op_idx {
                    None => (Seq::empty(), Some(SpecErrorKind::MissingToWrite("lv-start-offset"))),
                    Some(op) => {
                        let (b, err) = emit_all(content, depth + 1, Scope::CommentOnly, esc);
                        (var_text(depth, lv, op.0, lvt_row_index, src, dst, esc) + b, err)
                    },
                },
            },
            _ => (Seq::empty(), Some(SpecErrorKind::Unsupported("method variable"))),
        },
    }
}

/// What serializing `es` one after another writes, up to the first error.
pub open spec fn emit_all(es: Seq<SpecElement>, depth: nat, scope: Scope, esc: bool) -> (Seq<u8>, Option<SpecErrorKind>)
    decreases es,
{
    if es.len() == 0 {
        (Seq::empty(), None)
    } else {
        let (b, err) = emit(es[0], depth, scope, esc);
        match err {
            Some(k) => (b, Some(k)),
            None => {
                let (b2, err2) = emit_all(es.subrange(1, es.len() as int), depth, scope, esc);
                (b + b2, err2)
            },
        }
    }
}

proof fn lemma_emit_all_step(es: Seq<SpecElement>, i: int, depth: nat, scope: Scope, esc: bool)
    requires
        0 <= i < es.len(),
    ensures
        emit_all(es.subrange(i, es.len() as int), depth, scope, esc) == ({
            let (b, err) = emit(es[i], depth, scope, esc);
            match err {
                Some(k) => (b, Some(k)),
                None => {
                    let (b2, err2) = emit_all(es.subrange(i + 1, es.len() as int), depth, scope, esc);
                    (b + b2, err2)
                },
            }
        }),
{
    let s = es.subrange(i, es.len() as int);
    assert(s[0] == es[i]);
    assert(s.subrange(1, s.len() as int) =~= es.subrange(i + 1, es.len() as int));
}

/// Optional owned names as a slice.
fn opt_names_slice(d: &Option<Vec<Vec<u8>>>) -> (r: Option<&[Vec<u8>]>)
    ensures
        opt_slice_names(r) == crate::element::opt_names_view(*d),
{
    match d {
        Some(v) => Some(v.as_slice()),
        None => None,
    }
}

/// Optional owned bytes as a slice.
fn opt_bytes_slice(d: &Option<Vec<u8>>) -> (r: Option<&[u8]>)
    ensures
        opt_slice(r) == crate::element::opt_bytes_view(*d),
{
    match d {
        Some(v) => Some(v.as_slice()),
        None => None,
    }
}

impl<'a> ContentSerializer<'a> {
    /// Serializes an element with its content: what `emit` describes.
    pub fn serialize_element(&mut self, e: &Element) -> (r: Result<(), Error>)
        requires
            !(old(self).scope is Top),
            old(self).indent + height(e.view()) <= usize::MAX,
            element_ok(e.view(), old(self).escaped_names),
        ensures
            final(self).indent == old(self).indent,
            final(self).scope == old(self).scope,
            final(self).escaped_names == old(self).escaped_names,
            *final(final(self).writer) == *final(old(self).writer),
            final(self).writer@ == old(self).writer@ + emit(e.view(), old(self).indent as nat, old(self).scope, old(self).escaped_names).0,
            match emit(e.view(), old(self).indent as nat, old(self).scope, old(self).escaped_names).1 {
                None => r is Ok,
                Some(k) => r matches Err(x) && x.kind@ == k && x.line == 0 && x.col == 0,
            },
        decreases height(e.view()), 0nat,
    {
        match e {
            Element::Comment(c) => self.serialize_comment(c.as_slice()),
            Element::Class(c) => match self.serialize_class(c.src.as_slice(), c.dst.as_slice()) {
                Ok(_) => Ok(()),
                Err(x) => Err(x),
            },
            Element::Field(f) => {
                let desc = opt_bytes_slice(&f.desc);
                let mut child = match self.serialize_field(f.src.as_slice(), desc, f.dst.as_slice(), None) {
                    Ok(ch) => ch,
                    Err(x) => {
                        return Err(x);
                    },
                };
                child.serialize_elements(f.content.as_slice())
            },
            Element::Method(f) => {
                let desc = opt_bytes_slice(&f.desc);
                let mut child = match self.serialize_method(f.src.as_slice(), desc, f.dst.as_slice(), None) {
                    Ok(ch) => ch,
                    Err(x) => {
                        return Err(x);
                    },
                };
                child.serialize_elements(f.content.as_slice())
            },
            Element::MethodArg(a) => {
                let src = opt_bytes_slice(&a.src);
                let dst = opt_names_slice(&a.dst);
                let mut child = match self.serialize_method_arg(src, dst, a.pos, a.lv_index) {
                    Ok(ch) => ch,
                    Err(x) => {
                        return Err(x);
                    },
                };
                child.serialize_elements(a.content.as_slice())
            },
            Element::MethodVar(v) => {
                let src = opt_bytes_slice(&v.src);
                let dst = opt_names_slice(&v.dst);
                let mut child = match self.serialize_method_var(src, dst, v.lv_index, v.lvt_row_index, v.op_idx) {
                    Ok(ch) => ch,
                    Err(x) => {
                        return Err(x);
                    },
                };
                child.serialize_elements(v.content.as_slice())
            },
        }
    }

    /// Serializes elements one after another, stopping at the first error: what `emit_all`
    /// describes.
    pub fn serialize_elements(&mut self, es: &[Element]) -> (r: Result<(), Error>)
        requires
            !(old(self).scope is Top),
            old(self).indent + heights(elements_view(es@)) <= usize::MAX,
            elements_ok(elements_view(es@), old(self).escaped_names),
        ensures
            final(self).indent == old(self).indent,
            final(self).scope == old(self).scope,
            final(self).escaped_names == old(self).escaped_names,
            *final(final(self).writer) == *final(old(self).writer),
            final(self).writer@ == old(self).writer@ + emit_all(elements_view(es@), old(self).indent as nat, old(self).scope, old(self).escaped_names).0,
            match emit_all(elements_view(es@), old(self).indent as nat, old(self).scope, old(self).escaped_names).1 {
                None => r is Ok,
                Some(k) => r matches Err(x) && x.kind@ == k && x.line == 0 && x.col == 0,
            },
        decreases heights(elements_view(es@)), 1nat,
    {
        let ghost ev = elements_view(es@);
        let ghost d = self.indent as nat;
        let ghost sc = self.scope;
        let ghost esc = self.escaped_names;
        proof {
            crate::element::lemma_elements_view_len(es@);
            assert(ev.subrange(0, ev.len() as int) == ev);
        }
        let mut i: usize = 0;
        while i < es.len()
            invariant
                i <= es@.len(),
                ev == elements_view(es@),
                ev.len() == es@.len(),
                forall|j: int| 0 <= j < es@.len() ==> #[trigger] ev[j] == es@[j].view(),
                d == old(self).indent,
                sc == old(self).scope,
                esc == old(self).escaped_names,
                !(sc is Top),
                self.indent == old(self).indent,
                self.scope == old(self).scope,
                self.escaped_names == old(self).escaped_names,
                *final(self.writer) == *final(old(self).writer),
                self.indent + heights(ev) <= usize::MAX,
                elements_ok(ev, esc),
                old(self).writer@ + emit_all(ev, d, sc, esc).0 == self.writer@ + emit_all(
                    ev.subrange(i as int, ev.len() as int),
                    d,
                    sc,
                    esc,
                ).0,
                emit_all(ev, d, sc, esc).1 == emit_all(ev.subrange(i as int, ev.len() as int), d, sc, esc).1,
            decreases es@.len() - i,
        {
            proof {
                lemma_heights(ev, i as int);
                lemma_elements_ok(ev, esc, i as int);
                lemma_emit_all_step(ev, i as int, d, sc, esc);
            }
            let ghost before = self.writer@;
            match self.serialize_element(&es[i]) {
                Err(x) => {
                    return Err(x);
                },
                Ok(()) => {},
            }
            proof {
                let (b, _) = emit(ev[i as int], d, sc, esc);
                let (b2, _) = emit_all(ev.subrange(i + 1, ev.len() as int), d, sc, esc);
                assert(before + (b + b2) == self.writer@ + b2);
            }
            i = i + 1;
        }
        proof {
            assert(ev.subrange(i as int, ev.len() as int) =~= Seq::<SpecElement>::empty());
            assert(self.writer@ + Seq::<u8>::empty() == self.writer@);
        }
        Ok(())
    }
}

impl<'a> Serializer<'a> {
    /// Serializes a top-level element with its content: what `emit` describes at depth 0.
    pub fn serialize_element(&mut self, e: &Element) -> (r: Result<(), Error>)
        requires
            height(e.view()) <= usize::MAX,
            element_ok(e.view(), old(self).escaped_names),
        ensures
            final(self).escaped_names == old(self).escaped_names,
            *final(final(self).writer) == *final(old(self).writer),
            final(self).writer@ == old(self).writer@ + emit(e.view(), 0, Scope::Top, old(self).escaped_names).0,
            match emit(e.view(), 0, Scope::Top, old(self).escaped_names).1 {
                None => r is Ok,
                Some(k) => r matches Err(x) && x.kind@ == k && x.line == 0 && x.col == 0,
            },
    {
        match e {
            Element::Class(c) => {
                let mut child = match self.serialize_class(c.src.as_slice(), c.dst.as_slice()) {
                    Ok(ch) => ch,
                    Err(x) => {
                        return Err(x);
                    },
                };
                child.serialize_elements(c.content.as_slice())
            },
            Element::Comment(c) => self.serialize_comment(c.as_slice()),
            Element::Field(f) => match self.serialize_field(f.src.as_slice(), None, f.dst.as_slice(), None) {
                Ok(_) => Ok(()),
                Err(x) => Err(x),
            },
            Element::Method(f) => match self.serialize_method(f.src.as_slice(), None, f.dst.as_slice(), None) {
                Ok(_) => Ok(()),
                Err(x) => Err(x),
            },
            Element::MethodArg(a) => match self.serialize_method_arg(None, None, a.pos, a.lv_index) {
                Ok(_) => Ok(()),
                Err(x) => Err(x),
            },
            Element::MethodVar(v) => match self.serialize_method_var(None, None, v.lv_index, v.lvt_row_index, v.op_idx) {
                Ok(_) => Ok(()),
                Err(x) => Err(x),
            },
        }
    }

    /// Serializes top-level elements one after another, stopping at the first error.
    pub fn serialize_elements(&mut self, es: &[Element]) -> (r: Result<(), Error>)
        requires
            heights(elements_view(es@)) <= usize::MAX,
            elements_ok(elements_view(es@), old(self).escaped_names),
        ensures
            final(self).escaped_names == old(self).escaped_names,
            *final(final(self).writer) == *final(old(self).writer),
            final(self).writer@ == old(self).writer@ + emit_all(elements_view(es@), 0, Scope::Top, old(self).escaped_names).0,
            match emit_all(elements_view(es@), 0, Scope::Top, old(self).escaped_names).1 {
                None => r is Ok,
                Some(k) => r matches Err(x) && x.kind@ == k && x.line == 0 && x.col == 0,
            },
    {
        let ghost ev = elements_view(es@);
        let ghost esc = self.escaped_names;
        proof {
            crate::element::lemma_elements_view_len(es@);
            assert(ev.subrange(0, ev.len() as int) == ev);
        }
        let mut i: usize = 0;
        while i < es.len()
            invariant
                i <= es@.len(),
                ev == elements_view(es@),
                ev.len() == es@.len(),
                forall|j: int| 0 <= j < es@.len() ==> #[trigger] ev[j] == es@[j].view(),
                esc == old(self).escaped_names,
                self.escaped_names == old(self).escaped_names,
                *final(self.writer) == *final(old(self).writer),
                heights(ev) <= usize::MAX,
                elements_ok(ev, esc),
                old(self).writer@ + emit_all(ev, 0, Scope::Top, esc).0 == self.writer@ + emit_all(
                    ev.subrange(i as int, ev.len() as int),
                    0,
                    Scope::Top,
                    esc,
                ).0,
                emit_all(ev, 0, Scope::Top, esc).1 == emit_all(ev.subrange(i as int, ev.len() as int), 0, Scope::Top, esc).1,
            decreases es@.len() - i,
        {
            proof {
                lemma_heights(ev, i as int);
                lemma_elements_ok(ev, esc, i as int);
                lemma_emit_all_step(ev, i as int, 0, Scope::Top, esc);
            }
            let ghost before = self.writer@;
            match self.serialize_element(&es[i]) {
                Err(x) => {
                    return Err(x);
                },
                Ok(()) => {},
            }
            proof {
                let (b, _) = emit(ev[i as int], 0, Scope::Top, esc);
                let (b2, _) = emit_all(ev.subrange(i + 1, ev.len() as int), 0, Scope::Top, esc);
                assert(before + (b + b2) == self.writer@ + b2);
            }
            i = i + 1;
        }
        proof {
            assert(ev.subrange(i as int, ev.len() as int) =~= Seq::<SpecElement>::empty());
            assert(self.writer@ + Seq::<u8>::empty() == self.writer@);
        }
        Ok(())
    }
}

/// Serializes elements after a header with minor version 0 into the given buffer, after what it
/// holds.
pub fn to_writer(writer: &mut Vec<u8>, value: &[Element], src: &[u8], dst: &[Vec<u8>], props: &[(&[u8], Option<&[u8]>)]) -> (r: Result<(), Error>)
    requires
        forall|i: int| 0 <= i < props@.len() ==> ((#[trigger] props@[i]).1 matches Some(v) ==> valid_utf8(v@)),
        heights(elements_view(value@)) <= usize::MAX,
        elements_ok(elements_view(value@), marks_escaped(props_arg(props@))),
    ensures
        ({
            let esc = marks_escaped(props_arg(props@));
            let (b, err) = emit_all(elements_view(value@), 0, Scope::Top, esc);
            &&& final(writer)@ == old(writer)@ + header_text(0, src@, names_view(dst@), props_arg(props@)) + b
            &&& match err {
                None => r is Ok,
                Some(k) => r matches Err(x) && x.kind@ == k && x.line == 0 && x.col == 0,
            }
        }),
{
    let mut ser = match Serializer::new(writer, src, dst, 0, props) {
        Ok(s) => s,
        Err(e) => {
            return Err(e);
        },
    };
    ser.serialize_elements(value)
}

/// Serializes elements after a header with minor version 0 into a new buffer.
pub fn to_vec(value: &[Element], src: &[u8], dst: &[Vec<u8>], props: &[(&[u8], Option<&[u8]>)]) -> (r: Result<Vec<u8>, Error>)
    requires
        forall|i: int| 0 <= i < props@.len() ==> ((#[trigger] props@[i]).1 matches Some(v) ==> valid_utf8(v@)),
        heights(elements_view(value@)) <= usize::MAX,
        elements_ok(elements_view(value@), marks_escaped(props_arg(props@))),
    ensures
        ({
            let esc = marks_escaped(props_arg(props@));
            let (b, err) = emit_all(elements_view(value@), 0, Scope::Top, esc);
            match err {
                None => r matches Ok(v) && v@ == header_text(0, src@, names_view(dst@), props_arg(props@)) + b,
                Some(k) => r matches Err(x) && x.kind@ == k && x.line == 0 && x.col == 0,
            }
        }),
{
    let mut vec: Vec<u8> = Vec::new();
    match to_writer(&mut vec, value, src, dst, props) {
        Ok(()) => Ok(vec),
        Err(e) => Err(e),
    }
}

} // verus!
