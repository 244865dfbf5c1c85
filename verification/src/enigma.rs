//! Enigma mapping files: deserialization into mapping elements, and serialization.
//!
//! Every line is an entry `TYPE col col..` with columns separated by spaces; the entries
//! belonging to an entry follow it, indented one tab deeper.
use vstd::prelude::*;
use vstd::utf8::valid_utf8;
use crate::cursor::{
    col_at, cols_of, fetch, fetch_line, lemma_fetch_indent, lemma_read_col_cols,
    lemma_read_cols_cols, measure, pos_of, reader_ok, LineReader, Pos,
};
use crate::element::{
    elements_view, names_view, Class, Element, Field, Method, MethodArg, SpecElement,
};
use crate::error::{Error, ErrorKind, SpecErrorKind};
use crate::io::{spec_read_col, spec_read_cols, ColState, ColumnReadAdapter, ColumnReader, SliceReader};
use crate::proguard::{item_outcome, prepend, read_outcome, start_pos};
use crate::strs::{eq_bytes, has_prefix, starts_with};
use crate::text::{int_text, is_utf8, parse_nonneg, parse_nonneg_isize, push_decimal, push_int};

verus! {

/// Indentation byte of Enigma files.
pub const INDENT: u8 = 0x09u8;

/// Column separator of Enigma files.
pub const SEPARATOR: u8 = 0x20u8;

pub open spec fn kw_class() -> Seq<u8> {
    seq![0x43u8, 0x4cu8, 0x41u8, 0x53u8, 0x53u8]
}

pub open spec fn kw_comment() -> Seq<u8> {
    seq![0x43u8, 0x4fu8, 0x4du8, 0x4du8, 0x45u8, 0x4eu8, 0x54u8]
}

pub open spec fn kw_field() -> Seq<u8> {
    seq![0x46u8, 0x49u8, 0x45u8, 0x4cu8, 0x44u8]
}

pub open spec fn kw_method() -> Seq<u8> {
    seq![0x4du8, 0x45u8, 0x54u8, 0x48u8, 0x4fu8, 0x44u8]
}

pub open spec fn kw_arg() -> Seq<u8> {
    seq![0x41u8, 0x52u8, 0x47u8]
}

/// The column `-` that stands for an absent name.
pub open spec fn dash() -> Seq<u8> {
    seq![0x2du8]
}

/// A column that must be present and UTF-8.
pub open spec fn field_bytes(c: Option<Seq<u8>>, section: &'static str) -> Result<Seq<u8>, SpecErrorKind> {
    match c {
        None => Err(SpecErrorKind::MissingField(section)),
        Some(b) => if valid_utf8(b) {
            Ok(b)
        } else {
            Err(SpecErrorKind::Utf8)
        },
    }
}

/// A column that must be present; `-` stands for no name, anything else must be UTF-8.
pub open spec fn field_bytes_opt(c: Option<Seq<u8>>, section: &'static str) -> Result<
    Option<Seq<u8>>,
    SpecErrorKind,
> {
    match c {
        None => Err(SpecErrorKind::MissingField(section)),
        Some(b) => if b == dash() {
            Ok(None)
        } else if valid_utf8(b) {
            Ok(Some(b))
        } else {
            Err(SpecErrorKind::Utf8)
        },
    }
}

/// An optional name as a list of names.
pub open spec fn opt_list(o: Option<Seq<u8>>) -> Seq<Seq<u8>> {
    match o {
        Some(x) => seq![x],
        None => Seq::empty(),
    }
}

/// What a class, field, method or argument entry is, given its columns and its content.
pub open spec fn entry_element(ty: Seq<u8>, cols: Seq<Seq<u8>>, content: Seq<SpecElement>) -> Result<
    SpecElement,
    SpecErrorKind,
> {
    if ty == kw_class() {
        match field_bytes(col_at(cols, 0), "class-name-a") {
            Err(e) => Err(e),
            Ok(src) => match field_bytes_opt(col_at(cols, 1), "class-name-b") {
                Err(e) => Err(e),
                Ok(dst) => Ok(SpecElement::Class { src, dst: opt_list(dst), content }),
            },
        }
    } else if ty == kw_arg() {
        match field_bytes(col_at(cols, 0), "lv-index") {
            Err(e) => Err(e),
            Ok(lv) => match parse_nonneg_isize(lv) {
                None => Err(SpecErrorKind::Msg("invalid parameter lv-index")),
                Some(lv) => match field_bytes_opt(col_at(cols, 1), "name-b") {
                    Err(e) => Err(e),
                    Ok(dst) => Ok(
                        SpecElement::MethodArg {
                            src: None,
                            dst: match dst {
                                Some(d) => Some(seq![d]),
                                None => None,
                            },
                            pos: None,
                            lv_index: Some(lv as usize),
                            content,
                        },
                    ),
                },
            },
        }
    } else {
        match field_bytes(col_at(cols, 0), "name-a") {
            Err(e) => Err(e),
            Ok(src) => match field_bytes_opt(col_at(cols, 1), "name-b") {
                Err(e) => Err(e),
                Ok(dst) => match field_bytes(col_at(cols, 2), "desc-a") {
                    Err(e) => Err(e),
                    Ok(desc) => if ty == kw_field() {
                        Ok(
                            SpecElement::Field {
                                src,
                                dst: opt_list(dst),
                                desc: Some(desc),
                                dst_desc: None,
                                content,
                            },
                        )
                    } else {
                        Ok(
                            SpecElement::Method {
                                src,
                                dst: opt_list(dst),
                                desc: Some(desc),
                                dst_desc: None,
                                content,
                            },
                        )
                    },
                },
            },
        }
    }
}

/// Law: with UTF-8 columns, a class entry is named by its first column and has as destination
/// the second column, or none where that column is `-`; a field or method entry has its name,
/// destination (the same way) and descriptor in its first three columns.
pub proof fn lemma_entry_element_cols(ty: Seq<u8>, cols: Seq<Seq<u8>>, content: Seq<SpecElement>)
    requires
        forall|i: int| 0 <= i < cols.len() ==> valid_utf8(#[trigger] cols[i]),
    ensures
        ty == kw_class() && cols.len() >= 2 ==> entry_element(ty, cols, content) == Ok::<SpecElement, SpecErrorKind>(
            SpecElement::Class {
                src: cols[0],
                dst: if cols[1] == dash() {
                    Seq::empty()
                } else {
                    seq![cols[1]]
                },
                content,
            },
        ),
        ty == kw_field() && cols.len() >= 3 ==> entry_element(ty, cols, content) == Ok::<SpecElement, SpecErrorKind>(
            SpecElement::Field {
                src: cols[0],
                dst: if cols[1] == dash() {
                    Seq::empty()
                } else {
                    seq![cols[1]]
                },
                desc: Some(cols[2]),
                dst_desc: None,
                content,
            },
        ),
        ty == kw_method() && cols.len() >= 3 ==> entry_element(ty, cols, content) == Ok::<SpecElement, SpecErrorKind>(
            SpecElement::Method {
                src: cols[0],
                dst: if cols[1] == dash() {
                    Seq::empty()
                } else {
                    seq![cols[1]]
                },
                desc: Some(cols[2]),
                dst_desc: None,
                content,
            },
        ),
{
    assert(kw_class()[0] != kw_arg()[0]);
    assert(kw_field()[0] != kw_class()[0] && kw_field()[0] != kw_arg()[0]);
    assert(kw_method()[0] != kw_class()[0] && kw_method()[0] != kw_arg()[0] && kw_method()[0] != kw_field()[0]);
}

/// How many columns an entry of type `ty` reads.
pub open spec fn entry_width(ty: Seq<u8>) -> nat {
    if ty == kw_class() || ty == kw_arg() {
        2
    } else {
        3
    }
}

/// Whether `ty` names an entry with content: class, field, method or argument.
pub open spec fn is_entry(ty: Seq<u8>) -> bool {
    ty == kw_class() || ty == kw_field() || ty == kw_method() || ty == kw_arg()
}

/// The next item at depth `k` from position `p`, with the position after it; `None` once a line
/// at a shallower depth or the end of input stands. Lines whose type starts with `#` are
/// passed over.
pub open spec fn item(p: Pos, k: usize) -> (Result<Option<SpecElement>, SpecErrorKind>, Pos)
    decreases measure(p), 0nat,
{
    let (ok, p1) = fetch(p, k, INDENT, false);
    if !ok {
        (Ok(None), p1)
    } else {
        let (c, st2) = spec_read_col(p1.st, SEPARATOR);
        let p2 = Pos { st: st2, fresh: false };
        let ty = match c {
            Some(t) => t,
            None => Seq::empty(),
        };
        if has_prefix(ty, seq![0x23u8]) {
            if measure(p2) < measure(p) {
                item(p2, k)
            } else {
                (Ok(None), p2)
            }
        } else if ty == kw_comment() {
            match st2.line {
                None => (Ok(Some(SpecElement::Comment(Seq::empty()))), p2),
                Some(l) => if valid_utf8(l) {
                    (Ok(Some(SpecElement::Comment(l))), p2)
                } else {
                    (Err(SpecErrorKind::Utf8), p2)
                },
            }
        } else if is_entry(ty) {
            let (cs, st3) = spec_read_cols(st2, SEPARATOR, entry_width(ty));
            let p3 = Pos { st: st3, fresh: false };
            let cols = cols_of(st2, SEPARATOR);
            match entry_element(ty, cols, Seq::empty()) {
                Err(e) => (Err(e), p3),
                Ok(_) => if measure(p3) < measure(p) && k < usize::MAX {
                    let (r, p4) = items(p3, (k + 1) as usize);
                    match r {
                        Err(e) => (Err(e), p4),
                        Ok(content) => match entry_element(ty, cols, content) {
                            Ok(e) => (Ok(Some(e)), p4),
                            Err(e) => (Err(e), p4),
                        },
                    }
                } else {
                    (Ok(None), p3)
                },
            }
        } else {
            (
                Err(
                    SpecErrorKind::InvalidType {
                        found: ty,
                        expected: "CLASS, FIELD, METHOD, ARG, COMMENT",
                    },
                ),
                p2,
            )
        }
    }
}

/// The items at depth `k` from position `p`, until none follows.
pub open spec fn items(p: Pos, k: usize) -> (Result<Seq<SpecElement>, SpecErrorKind>, Pos)
    decreases measure(p), 1nat,
{
    let (r, p2) = item(p, k);
    match r {
        Err(e) => (Err(e), p2),
        Ok(None) => (Ok(Seq::empty()), p2),
        Ok(Some(e)) => if measure(p2) < measure(p) {
            let (rs, p3) = items(p2, k);
            (prepend(seq![e], rs), p3)
        } else {
            (Ok(seq![e]), p2)
        },
    }
}

/// Whether the owned columns `v` are the first columns of `cols`.
pub open spec fn cols_agree(v: Seq<Option<Vec<u8>>>, cols: Seq<Seq<u8>>) -> bool {
    forall|i: int| 0 <= i < v.len() ==> crate::io::opt_view_vec(#[trigger] v[i]) == col_at(cols, i)
}

/// The outcome of a column read.
pub open spec fn bytes_result(r: Result<Vec<u8>, ErrorKind>) -> Result<Seq<u8>, SpecErrorKind> {
    match r {
        Ok(v) => Ok(v@),
        Err(k) => Err(k@),
    }
}

/// The outcome of an optional column read.
pub open spec fn opt_bytes_result(r: Result<Option<Vec<u8>>, ErrorKind>) -> Result<Option<Seq<u8>>, SpecErrorKind> {
    match r {
        Ok(Some(v)) => Ok(Some(v@)),
        Ok(None) => Ok(None),
        Err(k) => Err(k@),
    }
}

/// Reads column `i`, which must be present and UTF-8.
fn col_bytes(cols: &Vec<Option<Vec<u8>>>, i: usize, section: &'static str, Ghost(spec_cols): Ghost<Seq<Seq<u8>>>) -> (r: Result<Vec<u8>, ErrorKind>)
    requires
        i < cols@.len(),
        cols_agree(cols@, spec_cols),
    ensures
        bytes_result(r) == field_bytes(col_at(spec_cols, i as int), section),
{
    match &cols[i] {
        None => Err(ErrorKind::MissingField(section)),
        Some(b) => if is_utf8(b.as_slice()) {
            Ok(crate::strs::to_vec(b.as_slice()))
        } else {
            Err(ErrorKind::Utf8)
        },
    }
}

/// Reads column `i`, which must be present: `-` gives no name, anything else must be UTF-8.
fn col_bytes_opt(cols: &Vec<Option<Vec<u8>>>, i: usize, section: &'static str, Ghost(spec_cols): Ghost<Seq<Seq<u8>>>) -> (r: Result<Option<Vec<u8>>, ErrorKind>)
    requires
        i < cols@.len(),
        cols_agree(cols@, spec_cols),
    ensures
        opt_bytes_result(r) == field_bytes_opt(col_at(spec_cols, i as int), section),
{
    match &cols[i] {
        None => Err(ErrorKind::MissingField(section)),
        Some(b) => {
            let d: [u8; 1] = [0x2d];
            assert(d@ == dash());
            if eq_bytes(b.as_slice(), &d) {
                Ok(None)
            } else if is_utf8(b.as_slice()) {
                Ok(Some(crate::strs::to_vec(b.as_slice())))
            } else {
                Err(ErrorKind::Utf8)
            }
        },
    }
}

/// An optional name as a list of names.
fn opt_vec(o: Option<Vec<u8>>) -> (r: Vec<Vec<u8>>)
    ensures
        names_view(r@) == opt_list(crate::element::opt_bytes_view(o)),
{
    match o {
        Some(x) => {
            let v = vec![x];
            proof {
                crate::element::lemma_names_one(v, x@);
            }
            v
        },
        None => {
            let v: Vec<Vec<u8>> = Vec::new();
            assert(names_view(v@) =~= Seq::<Seq<u8>>::empty());
            v
        },
    }
}

/// The parsed columns of a class, field, method or argument entry, before its content.
pub enum Head {
    Class { src: Vec<u8>, dst: Option<Vec<u8>> },
    Arg { lv_index: usize, dst: Option<Vec<u8>> },
    Field { src: Vec<u8>, dst: Option<Vec<u8>>, desc: Vec<u8> },
    Method { src: Vec<u8>, dst: Option<Vec<u8>>, desc: Vec<u8> },
}

impl Head {
    /// The element this head makes with the given content.
    pub open spec fn element(&self, content: Seq<SpecElement>) -> SpecElement {
        match self {
            Head::Class { src, dst } => SpecElement::Class {
                src: src@,
                dst: opt_list(crate::element::opt_bytes_view(*dst)),
                content,
            },
            Head::Arg { lv_index, dst } => SpecElement::MethodArg {
                src: None,
                dst: match dst {
                    Some(d) => Some(seq![d@]),
                    None => None,
                },
                pos: None,
                lv_index: Some(*lv_index),
                content,
            },
            Head::Field { src, dst, desc } => SpecElement::Field {
                src: src@,
                dst: opt_list(crate::element::opt_bytes_view(*dst)),
                desc: Some(desc@),
                dst_desc: None,
                content,
            },
            Head::Method { src, dst, desc } => SpecElement::Method {
                src: src@,
                dst: opt_list(crate::element::opt_bytes_view(*dst)),
                desc: Some(desc@),
                dst_desc: None,
                content,
            },
        }
    }

    /// Completes the element with its content.
    pub fn build(self, content: Vec<Element>) -> (r: Element)
        ensures
            r.view() == self.element(elements_view(content@)),
    {
        match self {
            Head::Class { src, dst } => Element::Class(Class { src, dst: opt_vec(dst), content }),
            Head::Arg { lv_index, dst } => {
                let dst_list: Option<Vec<Vec<u8>>> = match dst {
                    Some(d) => {
                        let v = vec![d];
                        proof {
                            crate::element::lemma_names_one(v, d@);
                        }
                        Some(v)
                    },
                    None => None,
                };
                Element::MethodArg(
                    MethodArg { src: None, dst: dst_list, pos: None, lv_index: Some(lv_index), content },
                )
            },
            Head::Field { src, dst, desc } => Element::Field(
                Field { src, dst: opt_vec(dst), desc: Some(desc), dst_desc: None, content },
            ),
            Head::Method { src, dst, desc } => Element::Method(
                Method { src, dst: opt_vec(dst), desc: Some(desc), dst_desc: None, content },
            ),
        }
    }
}

/// Parses the columns of a class, field, method or argument entry.
fn parse_head(ty: &[u8], cols: &Vec<Option<Vec<u8>>>, Ghost(spec_cols): Ghost<Seq<Seq<u8>>>) -> (r: Result<Head, ErrorKind>)
    requires
        is_entry(ty@),
        cols@.len() == entry_width(ty@),
        cols_agree(cols@, spec_cols),
    ensures
        match r {
            Ok(h) => forall|c: Seq<SpecElement>|
                #[trigger] entry_element(ty@, spec_cols, c) == Ok::<SpecElement, SpecErrorKind>(h.element(c)),
            Err(k) => forall|c: Seq<SpecElement>|
                #[trigger] entry_element(ty@, spec_cols, c) == Err::<SpecElement, SpecErrorKind>(k@),
        },
{
    let kc: [u8; 5] = [0x43, 0x4c, 0x41, 0x53, 0x53];
    let ka: [u8; 3] = [0x41, 0x52, 0x47];
    let kf: [u8; 5] = [0x46, 0x49, 0x45, 0x4c, 0x44];
    assert(kc@ == kw_class());
    assert(ka@ == kw_arg());
    assert(kf@ == kw_field());
    if eq_bytes(ty, &kc) {
        let src = match col_bytes(cols, 0, "class-name-a", Ghost(spec_cols)) {
            Err(e) => {
                return Err(e);
            },
            Ok(v) => v,
        };
        let dst = match col_bytes_opt(cols, 1, "class-name-b", Ghost(spec_cols)) {
            Err(e) => {
                return Err(e);
            },
            Ok(v) => v,
        };
        Ok(Head::Class { src, dst })
    } else if eq_bytes(ty, &ka) {
        let lvb = match col_bytes(cols, 0, "lv-index", Ghost(spec_cols)) {
            Err(e) => {
                return Err(e);
            },
            Ok(v) => v,
        };
        let lv_index = match parse_nonneg(lvb.as_slice()) {
            None => {
                return Err(ErrorKind::Msg("invalid parameter lv-index"));
            },
            Some(lv) => lv,
        };
        let dst = match col_bytes_opt(cols, 1, "name-b", Ghost(spec_cols)) {
            Err(e) => {
                return Err(e);
            },
            Ok(v) => v,
        };
        Ok(Head::Arg { lv_index, dst })
    } else {
        let src = match col_bytes(cols, 0, "name-a", Ghost(spec_cols)) {
            Err(e) => {
                return Err(e);
            },
            Ok(v) => v,
        };
        let dst = match col_bytes_opt(cols, 1, "name-b", Ghost(spec_cols)) {
            Err(e) => {
                return Err(e);
            },
            Ok(v) => v,
        };
        let desc = match col_bytes(cols, 2, "desc-a", Ghost(spec_cols)) {
            Err(e) => {
                return Err(e);
            },
            Ok(v) => v,
        };
        if eq_bytes(ty, &kf) {
            Ok(Head::Field { src, dst, desc })
        } else {
            Ok(Head::Method { src, dst, desc })
        }
    }
}

pub proof fn lemma_item_measure(p: Pos, k: usize)
    ensures
        measure(item(p, k).1) <= measure(p),
        item(p, k).0 matches Ok(Some(_)) ==> measure(item(p, k).1) < measure(p),
    decreases measure(p), 0nat,
{
    crate::cursor::lemma_fetch_le(p, k, INDENT, false);
    let (ok, p1) = fetch(p, k, INDENT, false);
    if ok {
        crate::io::lemma_read_col_progress(p1.st, SEPARATOR);
        let (c, st2) = spec_read_col(p1.st, SEPARATOR);
        let p2 = Pos { st: st2, fresh: false };
        let ty = match c {
            Some(t) => t,
            None => Seq::empty(),
        };
        if has_prefix(ty, seq![0x23u8]) {
            if measure(p2) < measure(p) {
                lemma_item_measure(p2, k);
            }
        } else if ty != kw_comment() && is_entry(ty) {
            lemma_read_cols_cols(st2, SEPARATOR, entry_width(ty));
            let (cs, st3) = spec_read_cols(st2, SEPARATOR, entry_width(ty));
            let p3 = Pos { st: st3, fresh: false };
            if measure(p3) < measure(p) && k < usize::MAX {
                lemma_items_measure(p3, (k + 1) as usize);
            }
        }
    }
}

pub proof fn lemma_items_measure(p: Pos, k: usize)
    ensures
        measure(items(p, k).1) <= measure(p),
    decreases measure(p), 1nat,
{
    lemma_item_measure(p, k);
    let (r, p2) = item(p, k);
    if let Ok(Some(e)) = r {
        if measure(p2) < measure(p) {
            lemma_items_measure(p2, k);
        }
    }
}

/// Reads the next item at depth `k`, with its content.
fn deserialize_item<'de>(read: &mut LineReader<'de>, k: usize) -> (r: Result<Option<Element>, Error>)
    requires
        reader_ok(*old(read), INDENT, SEPARATOR),
    ensures
        reader_ok(*final(read), INDENT, SEPARATOR),
        item_outcome(r, item(pos_of(*old(read)), k).0),
        pos_of(*final(read)) == item(pos_of(*old(read)), k).1,
        r matches Err(e) ==> e.line == final(read).spec_line() && e.col == final(read).spec_col(),
    decreases measure(pos_of(*old(read))), 0nat,
{
    let ghost p = pos_of(*read);
    proof {
        crate::cursor::lemma_fetch_le(p, k, INDENT, false);
        lemma_fetch_indent(p, k, INDENT, false);
    }
    if !fetch_line(read, k, false) {
        return Ok(None);
    }
    let ghost p1 = pos_of(*read);
    proof {
        crate::io::lemma_read_col_progress(p1.st, SEPARATOR);
    }
    let c = read.read_col();
    let ty: Vec<u8> = match c {
        Some(m) => crate::strs::to_vec(m.as_short()),
        None => Vec::new(),
    };
    let ghost st2 = read.spec_state();
    let hash: [u8; 1] = [0x23];
    assert(hash@ == seq![0x23u8]);
    if starts_with(ty.as_slice(), &hash) {
        return deserialize_item(read, k);
    }
    let kcm: [u8; 7] = [0x43, 0x4f, 0x4d, 0x4d, 0x45, 0x4e, 0x54];
    let kc: [u8; 5] = [0x43, 0x4c, 0x41, 0x53, 0x53];
    let kf: [u8; 5] = [0x46, 0x49, 0x45, 0x4c, 0x44];
    let km: [u8; 6] = [0x4d, 0x45, 0x54, 0x48, 0x4f, 0x44];
    let ka: [u8; 3] = [0x41, 0x52, 0x47];
    assert(kcm@ == kw_comment());
    assert(kc@ == kw_class());
    assert(kf@ == kw_field());
    assert(km@ == kw_method());
    assert(ka@ == kw_arg());
    if eq_bytes(ty.as_slice(), &kcm) {
        let r = match read.this_line() {
            None => Ok(Some(Element::Comment(Vec::new()))),
            Some(l) => if is_utf8(l.as_short()) {
                Ok(Some(Element::Comment(crate::strs::to_vec(l.as_short()))))
            } else {
                Err(Error::new(ErrorKind::Utf8))
            },
        };
        return match r {
            Ok(v) => Ok(v),
            Err(e) => Err(e.with_loc(read.line(), read.col())),
        };
    }
    let is_class = eq_bytes(ty.as_slice(), &kc);
    let is_arg = eq_bytes(ty.as_slice(), &ka);
    if !(is_class || is_arg || eq_bytes(ty.as_slice(), &kf) || eq_bytes(ty.as_slice(), &km)) {
        let e = Error::new(ErrorKind::InvalidType { found: ty, expected: "CLASS, FIELD, METHOD, ARG, COMMENT" });
        return Err(e.with_loc(read.line(), read.col()));
    }
    let width: usize = if is_class || is_arg {
        2
    } else {
        3
    };
    proof {
        lemma_read_cols_cols(st2, SEPARATOR, width as nat);
    }
    let cols = read.read_cols(width);
    let ghost spec_cols = cols_of(st2, SEPARATOR);
    assert(cols_agree(cols@, spec_cols)) by {
        let (cs, _) = spec_read_cols(st2, SEPARATOR, width as nat);
        assert forall|i: int| 0 <= i < cols@.len() implies crate::io::opt_view_vec(
            #[trigger] cols@[i],
        ) == col_at(spec_cols, i) by {
            assert(crate::io::owned_cols(cols@)[i] == cs[i]);
        }
    }
    let head = match parse_head(ty.as_slice(), &cols, Ghost(spec_cols)) {
        Err(kind) => {
            assert(entry_element(ty@, spec_cols, Seq::empty()) == Err::<SpecElement, SpecErrorKind>(kind@));
            return Err(Error::new(kind).with_loc(read.line(), read.col()));
        },
        Ok(h) => h,
    };
    assert(entry_element(ty@, spec_cols, Seq::empty()) is Ok);
    let content = match deserialize_items(read, k + 1) {
        Err(e) => {
            return Err(e);
        },
        Ok(v) => v,
    };
    let e = head.build(content);
    assert(entry_element(ty@, spec_cols, elements_view(content@)) == Ok::<SpecElement, SpecErrorKind>(e.view()));
    Ok(Some(e))
}

/// Reads the items at depth `k` until none follows.
fn deserialize_items<'de>(read: &mut LineReader<'de>, k: usize) -> (r: Result<Vec<Element>, Error>)
    requires
        reader_ok(*old(read), INDENT, SEPARATOR),
    ensures
        reader_ok(*final(read), INDENT, SEPARATOR),
        read_outcome(r, items(pos_of(*old(read)), k).0),
        pos_of(*final(read)) == items(pos_of(*old(read)), k).1,
        r matches Err(e) ==> e.line == final(read).spec_line() && e.col == final(read).spec_col(),
    decreases measure(pos_of(*old(read))), 1nat,
{
    let mut out: Vec<Element> = Vec::new();
    let ghost p0 = pos_of(*read);
    proof {
        assert(elements_view(out@) == Seq::<SpecElement>::empty());
        if let Ok(es) = items(p0, k).0 {
            assert(Seq::<SpecElement>::empty() + es == es);
        }
    }
    loop
        invariant
            reader_ok(*read, INDENT, SEPARATOR),
            p0 == pos_of(*old(read)),
            measure(pos_of(*read)) <= measure(p0),
            items(p0, k).0 == prepend(elements_view(out@), items(pos_of(*read), k).0),
            items(p0, k).1 == items(pos_of(*read), k).1,
        decreases measure(pos_of(*read)),
    {
        let ghost p = pos_of(*read);
        proof {
            lemma_item_measure(p, k);
        }
        match deserialize_item(read, k) {
            Err(e) => {
                return Err(e);
            },
            Ok(None) => {
                proof {
                    assert(elements_view(out@) + Seq::<SpecElement>::empty() == elements_view(out@));
                }
                return Ok(out);
            },
            Ok(Some(e)) => {
                let ghost before = out@;
                out.push(e);
                proof {
                    crate::element::lemma_elements_view_push(before, e);
                    if let Ok(rest) = items(pos_of(*read), k).0 {
                        assert(elements_view(before) + (seq![e.view()] + rest) == elements_view(out@)
                            + rest);
                    }
                }
            },
        }
    }
}

/// Enigma mapping file deserializer.
///
/// Access modifiers are not supported.
#[derive(Debug)]
pub struct Deserializer<'a, 'de> {
    src: &'a [u8],
    dst: &'a [u8],
    aborted: bool,
    read: LineReader<'de>,
}

impl<'a, 'de> Deserializer<'a, 'de> {
    /// Where the reader stands.
    pub closed spec fn pos(&self) -> Pos {
        pos_of(self.read)
    }

    /// Whether a shallower line or the end of input ended the items.
    pub closed spec fn is_aborted(&self) -> bool {
        self.aborted
    }

    /// The reader's consistency.
    pub closed spec fn wf(&self) -> bool {
        reader_ok(self.read, INDENT, SEPARATOR)
    }

    /// The source namespace given at creation.
    pub closed spec fn spec_src(&self) -> Seq<u8> {
        self.src@
    }

    /// The destination namespace given at creation.
    pub closed spec fn spec_dst(&self) -> Seq<u8> {
        self.dst@
    }

    /// How many lines the reader has taken.
    pub closed spec fn spec_line(&self) -> usize {
        self.read.spec_line()
    }

    /// How many columns the reader has taken on its current line.
    pub closed spec fn spec_col(&self) -> usize {
        self.read.spec_col()
    }

    /// Creates a new Enigma deserializer over a column reader.
    pub fn new(src: &'a [u8], dst: &'a [u8], read: ColumnReadAdapter<SliceReader<'de>>) -> (r: Self)
        requires
            crate::io::ColumnRead::spec_wf(&read),
            crate::io::col_state_bounded(crate::io::ColumnRead::spec_state(&read)),
        ensures
            r.wf(),
            r.pos() == (Pos { st: crate::io::ColumnRead::spec_state(&read), fresh: false }),
            !r.is_aborted(),
            r.spec_src() == src@,
            r.spec_dst() == dst@,
    {
        Self { src, dst, aborted: false, read: ColumnReader::new(INDENT, SEPARATOR, read) }
    }

    /// Creates a new deserializer over the given slice.
    pub fn from_slice(src: &'a [u8], dst: &'a [u8], slice: &'de [u8]) -> (r: Self)
        requires
            slice@.len() < usize::MAX,
        ensures
            r.wf(),
            r.pos() == start_pos(slice@),
            !r.is_aborted(),
            r.spec_src() == src@,
            r.spec_dst() == dst@,
    {
        Self::new(src, dst, ColumnReadAdapter::new(SliceReader::new(slice)))
    }

    /// Returns the source namespace of this mapping.
    pub fn src_namespace(&self) -> (r: &[u8])
        ensures
            r@ == self.spec_src(),
    {
        self.src
    }

    /// Returns the destination namespaces of this mapping.
    pub fn dst_namespaces(&self) -> (r: Vec<&[u8]>)
        ensures
            r@.len() == 1,
            r@[0]@ == self.spec_dst(),
    {
        vec![self.dst]
    }

    /// Reads the next top-level item with its content; `None` once the items have ended, and
    /// from then on.
    pub fn deserialize_any(&mut self) -> (r: Result<Option<Element>, Error>)
        requires
            old(self).wf(),
        ensures
            final(self).wf(),
            final(self).spec_src() == old(self).spec_src(),
            final(self).spec_dst() == old(self).spec_dst(),
            old(self).is_aborted() ==> (r matches Ok(None) && final(self).pos() == old(self).pos()
                && final(self).is_aborted()),
            !old(self).is_aborted() ==> {
                &&& item_outcome(r, item(old(self).pos(), 0).0)
                &&& final(self).pos() == item(old(self).pos(), 0).1
                &&& final(self).is_aborted() == (r matches Ok(None))
            },
            r matches Err(e) ==> e.line == final(self).spec_line() && e.col == final(self).spec_col(),
    {
        if self.aborted {
            return Ok(None);
        }
        let r = deserialize_item(&mut self.read, 0);
        if let Ok(None) = r {
            self.aborted = true;
        }
        r
    }

    /// Reads every remaining top-level item with its content.
    pub fn deserialize_all(&mut self) -> (r: Result<Vec<Element>, Error>)
        requires
            old(self).wf(),
        ensures
            final(self).wf(),
            old(self).is_aborted() ==> (r matches Ok(v) && v@.len() == 0),
            !old(self).is_aborted() ==> read_outcome(r, items(old(self).pos(), 0).0),
            r matches Err(e) ==> e.line == final(self).spec_line() && e.col == final(self).spec_col(),
    {
        if self.aborted {
            return Ok(Vec::new());
        }
        let r = deserialize_items(&mut self.read, 0);
        self.aborted = true;
        r
    }
}

/// Deserializes the first top-level item of an Enigma mapping, if present.
pub fn from_slice(slice: &[u8], src: &[u8], dst: &[u8]) -> (r: Result<Option<Element>, Error>)
    requires
        slice@.len() < usize::MAX,
    ensures
        item_outcome(r, item(start_pos(slice@), 0).0),
{
    let mut d = Deserializer::from_slice(src, dst, slice);
    d.deserialize_any()
}

/// Deserializes every top-level item of an Enigma mapping.
pub fn from_slice_all(slice: &[u8]) -> (r: Result<Vec<Element>, Error>)
    requires
        slice@.len() < usize::MAX,
    ensures
        read_outcome(r, items(start_pos(slice@), 0).0),
{
    let empty: [u8; 0] = [];
    let mut d = Deserializer::from_slice(&empty, &empty, slice);
    d.deserialize_all()
}

/// `n` indentation bytes.
pub open spec fn tabs(n: nat) -> Seq<u8> {
    Seq::new(n, |i: int| INDENT)
}

/// The first destination name, or `-` when there is none.
pub open spec fn first_or_dash(dst: Seq<Seq<u8>>) -> Seq<u8> {
    if dst.len() > 0 {
        dst[0]
    } else {
        dash()
    }
}

/// The line of a class entry at depth `depth`.
pub open spec fn class_entry(depth: nat, src: Seq<u8>, dst: Seq<Seq<u8>>) -> Seq<u8> {
    tabs(depth) + kw_class() + seq![SEPARATOR] + src + seq![SEPARATOR] + first_or_dash(dst) + seq![0x0au8]
}

/// The line of a field or method entry (keyword `kw`) at depth `depth`.
pub open spec fn member_entry(depth: nat, kw: Seq<u8>, src: Seq<u8>, dst: Seq<Seq<u8>>, desc: Seq<u8>) -> Seq<u8> {
    tabs(depth) + kw + seq![SEPARATOR] + src + seq![SEPARATOR] + first_or_dash(dst) + seq![SEPARATOR]
        + desc + seq![0x0au8]
}

/// The local variable index column of an argument: the index as a 32-bit signed integer, or -1.
pub open spec fn lv_column(lv_index: Option<usize>) -> int {
    match lv_index {
        Some(i) => (i as i32) as int,
        None => -1,
    }
}

/// The line of an argument entry at depth `depth`.
pub open spec fn arg_entry(depth: nat, lv_index: Option<usize>, dst: Option<Seq<Seq<u8>>>) -> Seq<u8> {
    tabs(depth) + kw_arg() + seq![SEPARATOR] + int_text(lv_column(lv_index)) + seq![SEPARATOR]
        + first_or_dash(
        match dst {
            Some(d) => d,
            None => Seq::empty(),
        },
    ) + seq![0x0au8]
}

/// Law: an entry with destination names writes the first of them as its name column, whatever
/// follows it; only an empty list writes `-`. So extra destination names do not change the line.
pub proof fn lemma_entry_first_dst(
    depth: nat,
    src: Seq<u8>,
    dst: Seq<Seq<u8>>,
    kw: Seq<u8>,
    desc: Seq<u8>,
    lv_index: Option<usize>,
)
    ensures
        dst.len() > 0 ==> class_entry(depth, src, dst) == tabs(depth) + kw_class() + seq![SEPARATOR]
            + src + seq![SEPARATOR] + dst[0] + seq![0x0au8],
        dst.len() > 0 ==> member_entry(depth, kw, src, dst, desc) == tabs(depth) + kw + seq![SEPARATOR]
            + src + seq![SEPARATOR] + dst[0] + seq![SEPARATOR] + desc + seq![0x0au8],
        dst.len() > 0 ==> arg_entry(depth, lv_index, Some(dst)) == tabs(depth) + kw_arg() + seq![SEPARATOR]
            + int_text(lv_column(lv_index)) + seq![SEPARATOR] + dst[0] + seq![0x0au8],
        dst.len() == 0 ==> class_entry(depth, src, dst) == tabs(depth) + kw_class() + seq![SEPARATOR]
            + src + seq![SEPARATOR] + seq![0x2du8] + seq![0x0au8],
        dst.len() > 0 ==> class_entry(depth, src, dst) == class_entry(depth, src, seq![dst[0]]),
        dst.len() > 0 ==> member_entry(depth, kw, src, dst, desc) == member_entry(depth, kw, src, seq![dst[0]], desc),
        dst.len() > 0 ==> arg_entry(depth, lv_index, Some(dst)) == arg_entry(depth, lv_index, Some(seq![dst[0]])),
{
    assert(seq![dst[0]].len() == 1 && seq![dst[0]][0] == dst[0]);
}

/// The lines of a text as `str::lines` splits it: at each `\n`, a `\r` before it dropped too; a
/// final line ending adds no empty line.
pub open spec fn text_lines(s: Seq<u8>) -> Seq<Seq<u8>>
    decreases s.len(),
{
    if s.len() == 0 {
        Seq::empty()
    } else {
        match crate::bytes::find_byte(s, 0x0au8) {
            Some(i) => if 0 <= i < s.len() {
                let l = s.subrange(0, i);
                let l = if l.len() > 0 && l.last() == 0x0du8 {
                    l.drop_last()
                } else {
                    l
                };
                seq![l] + text_lines(s.subrange(i + 1, s.len() as int))
            } else {
                seq![s]
            },
            None => seq![s],
        }
    }
}

/// The comment lines for the lines `ls` at depth `depth`.
pub open spec fn comment_entries(depth: nat, ls: Seq<Seq<u8>>) -> Seq<u8>
    decreases ls.len(),
{
    if ls.len() == 0 {
        Seq::empty()
    } else {
        tabs(depth) + kw_comment() + seq![SEPARATOR] + ls[0] + seq![0x0au8] + comment_entries(
            depth,
            ls.drop_first(),
        )
    }
}

/// Enigma mapping file serializer, writing entries at its depth into a byte buffer.
#[derive(Debug)]
pub struct Serializer<'a> {
    pub indent: usize,
    pub writer: &'a mut Vec<u8>,
}

/// Appends `n` indentation bytes.
pub(crate) fn push_tabs(out: &mut Vec<u8>, n: usize)
    ensures
        final(out)@ == old(out)@ + tabs(n as nat),
{
    let mut i: usize = 0;
    while i < n
        invariant
            i <= n,
            out@ == old(out)@ + tabs(i as nat),
        decreases n - i,
    {
        out.push(INDENT);
        i = i + 1;
        assert(out@ =~= old(out)@ + tabs(i as nat));
    }
}

impl<'a> Serializer<'a> {
    /// Creates a new Enigma serializer writing into `writer`, at depth 0.
    pub fn new(writer: &'a mut Vec<u8>) -> (r: Self)
        ensures
            r.indent == 0,
            *r.writer == *old(writer),
            *final(r.writer) == *final(writer),
    {
        Serializer { indent: 0, writer }
    }

    /// A serializer one level deeper, writing into the same buffer.
    fn fork(&mut self) -> (r: Serializer<'_>)
        requires
            old(self).indent < usize::MAX,
        ensures
            r.indent == old(self).indent + 1,
            *r.writer == *old(self).writer,
            final(self).indent == old(self).indent,
            *final(self).writer == *final(r.writer),
            *final(final(self).writer) == *final(old(self).writer),
    {
        Serializer { indent: self.indent + 1, writer: &mut *self.writer }
    }
}

impl<'a> Serializer<'a> {
    /// Writes a comment: one comment entry per line of `value`.
    pub fn serialize_comment(&mut self, value: &[u8]) -> (r: Result<(), Error>)
        ensures
            r is Ok,
            final(self).indent == old(self).indent,
            *final(final(self).writer) == *final(old(self).writer),
            final(self).writer@ == old(self).writer@ + comment_entries(
                old(self).indent as nat,
                text_lines(value@),
            ),
    {
        let ghost depth = self.indent as nat;
        let ghost w0 = self.writer@;
        let mut start: usize = 0;
        let kcm: [u8; 7] = [0x43, 0x4f, 0x4d, 0x4d, 0x45, 0x4e, 0x54];
        assert(kcm@ == kw_comment());
        proof {
            assert(value@.subrange(0, value@.len() as int) == value@);
        }
        while start < value.len()
            invariant
                start <= value@.len(),
                self.indent == old(self).indent,
                *final(self.writer) == *final(old(self).writer),
                depth == self.indent,
                w0 == old(self).writer@,
                kcm@ == kw_comment(),
                w0 + comment_entries(depth, text_lines(value@)) == self.writer@ + comment_entries(
                    depth,
                    text_lines(value@.subrange(start as int, value@.len() as int)),
                ),
            decreases value@.len() - start,
        {
            let ghost rest = value@.subrange(start as int, value@.len() as int);
            let ghost before = self.writer@;
            let tail = &value[start..value.len()];
            assert(tail@ == rest);
            proof {
                crate::bytes::lemma_find_byte(rest, 0x0au8);
            }
            let end = match crate::io::find_first(0x0au8, tail) {
                Some(i) => start + i,
                None => value.len(),
            };
            let mut line_end = end;
            if line_end > start && end < value.len() && value[line_end - 1] == 0x0du8 {
                line_end = line_end - 1;
            }
            push_tabs(self.writer, self.indent);
            crate::strs::push_all(self.writer, &kcm);
            self.writer.push(SEPARATOR);
            crate::strs::push_all(self.writer, &value[start..line_end]);
            self.writer.push(0x0au8);
            let ghost line = value@.subrange(start as int, line_end as int);
            proof {
                let ls = text_lines(rest);
                let rest2 = if end < value.len() {
                    value@.subrange(end + 1, value@.len() as int)
                } else {
                    Seq::empty()
                };
                if end < value.len() {
                    assert(rest.subrange(0, end - start) == value@.subrange(start as int, end as int));
                    assert(rest.subrange(end - start + 1, rest.len() as int) == rest2);
                }
                if end < value.len() {
                    let l = rest.subrange(0, end - start);
                    if line_end < end {
                        assert(l.drop_last() =~= line);
                    } else {
                        assert(l =~= line);
                    }
                    assert(ls == seq![line] + text_lines(rest2));
                } else {
                    assert(rest =~= line);
                    assert(ls == seq![line] + text_lines(rest2));
                }
                assert(ls.drop_first() == text_lines(rest2));
                assert(self.writer@ == before + (tabs(depth) + kw_comment() + seq![SEPARATOR] + line
                    + seq![0x0au8]));
            }
            start = if end < value.len() {
                end + 1
            } else {
                end
            };
            proof {
                assert(value@.subrange(value@.len() as int, value@.len() as int) == Seq::<u8>::empty());
            }
        }
        Ok(())
    }
}

/// Appends the first destination name, or `-` when there is none.
fn push_first_or_dash(out: &mut Vec<u8>, dst: &[Vec<u8>])
    ensures
        final(out)@ == old(out)@ + first_or_dash(names_view(dst@)),
{
    if dst.len() > 0 {
        crate::strs::push_all(out, dst[0].as_slice());
    } else {
        out.push(0x2du8);
        assert(seq![0x2du8] == dash());
    }
}

impl<'a> Serializer<'a> {
    /// Writes a class entry; entries written to the returned serializer belong to the class.
    pub fn serialize_class(&mut self, src: &[u8], dst: &[Vec<u8>]) -> (r: Result<Serializer<'_>, Error>)
        requires
            old(self).indent < usize::MAX,
        ensures
            r matches Ok(c) && {
                &&& c.indent == old(self).indent + 1
                &&& c.writer@ == old(self).writer@ + class_entry(old(self).indent as nat, src@, names_view(dst@))
                &&& final(self).indent == old(self).indent
                &&& *final(self).writer == *final(c.writer)
                &&& *final(final(self).writer) == *final(old(self).writer)
            },
    {
        let kc: [u8; 5] = [0x43, 0x4c, 0x41, 0x53, 0x53];
        assert(kc@ == kw_class());
        push_tabs(self.writer, self.indent);
        crate::strs::push_all(self.writer, &kc);
        self.writer.push(SEPARATOR);
        crate::strs::push_all(self.writer, src);
        self.writer.push(SEPARATOR);
        push_first_or_dash(self.writer, dst);
        self.writer.push(0x0au8);
        assert(self.writer@ =~= old(self).writer@ + class_entry(old(self).indent as nat, src@, names_view(dst@)));
        Ok(self.fork())
    }

    /// Writes a field or method entry with keyword `kw`.
    fn serialize_member(&mut self, kw: &[u8], src: &[u8], desc: Option<&[u8]>, dst: &[Vec<u8>]) -> (r: Result<Serializer<'_>, Error>)
        requires
            old(self).indent < usize::MAX,
        ensures
            match desc {
                None => r matches Err(e) && e.line == 0 && e.col == 0 && e.kind@ == SpecErrorKind::MissingToWrite("desc")
                    && *final(self) == *old(self),
                Some(d) => r matches Ok(c) && {
                    &&& c.indent == old(self).indent + 1
                    &&& c.writer@ == old(self).writer@ + member_entry(
                        old(self).indent as nat,
                        kw@,
                        src@,
                        names_view(dst@),
                        d@,
                    )
                    &&& final(self).indent == old(self).indent
                    &&& *final(self).writer == *final(c.writer)
                    &&& *final(final(self).writer) == *final(old(self).writer)
                },
            },
    {
        let d = match desc {
            None => {
                return Err(Error::new(ErrorKind::MissingToWrite("desc")));
            },
            Some(d) => d,
        };
        push_tabs(self.writer, self.indent);
        crate::strs::push_all(self.writer, kw);
        self.writer.push(SEPARATOR);
        crate::strs::push_all(self.writer, src);
        self.writer.push(SEPARATOR);
        push_first_or_dash(self.writer, dst);
        self.writer.push(SEPARATOR);
        crate::strs::push_all(self.writer, d);
        self.writer.push(0x0au8);
        assert(self.writer@ =~= old(self).writer@ + member_entry(
            old(self).indent as nat,
            kw@,
            src@,
            names_view(dst@),
            d@,
        ));
        Ok(self.fork())
    }

    /// Writes a field entry; a field needs a descriptor.
    pub fn serialize_field(&mut self, src: &[u8], desc: Option<&[u8]>, dst: &[Vec<u8>], dst_desc: Option<&[Vec<u8>]>) -> (r: Result<Serializer<'_>, Error>)
        requires
            old(self).indent < usize::MAX,
        ensures
            match desc {
                None => r matches Err(e) && e.line == 0 && e.col == 0 && e.kind@ == SpecErrorKind::MissingToWrite("desc")
                    && *final(self) == *old(self),
                Some(d) => r matches Ok(c) && {
                    &&& c.indent == old(self).indent + 1
                    &&& c.writer@ == old(self).writer@ + member_entry(
                        old(self).indent as nat,
                        kw_field(),
                        src@,
                        names_view(dst@),
                        d@,
                    )
                    &&& final(self).indent == old(self).indent
                    &&& *final(self).writer == *final(c.writer)
                    &&& *final(final(self).writer) == *final(old(self).writer)
                },
            },
    {
        let kf: [u8; 5] = [0x46, 0x49, 0x45, 0x4c, 0x44];
        assert(kf@ == kw_field());
        self.serialize_member(&kf, src, desc, dst)
    }

    /// Writes a method entry; a method needs a descriptor.
    pub fn serialize_method(&mut self, src: &[u8], desc: Option<&[u8]>, dst: &[Vec<u8>], dst_desc: Option<&[Vec<u8>]>) -> (r: Result<Serializer<'_>, Error>)
        requires
            old(self).indent < usize::MAX,
        ensures
            match desc {
                None => r matches Err(e) && e.line == 0 && e.col == 0 && e.kind@ == SpecErrorKind::MissingToWrite("desc")
                    && *final(self) == *old(self),
                Some(d) => r matches Ok(c) && {
                    &&& c.indent == old(self).indent + 1
                    &&& c.writer@ == old(self).writer@ + member_entry(
                        old(self).indent as nat,
                        kw_method(),
                        src@,
                        names_view(dst@),
                        d@,
                    )
                    &&& final(self).indent == old(self).indent
                    &&& *final(self).writer == *final(c.writer)
                    &&& *final(final(self).writer) == *final(old(self).writer)
                },
            },
    {
        let km: [u8; 6] = [0x4d, 0x45, 0x54, 0x48, 0x4f, 0x44];
        assert(km@ == kw_method());
        self.serialize_member(&km, src, desc, dst)
    }

    /// Writes an argument entry: its local variable index (-1 when absent) and its first name.
    pub fn serialize_method_arg(&mut self, src: Option<&[u8]>, dst: Option<&[Vec<u8>]>, pos: Option<usize>, lv_index: Option<usize>) -> (r: Result<Serializer<'_>, Error>)
        requires
            old(self).indent < usize::MAX,
        ensures
            r matches Ok(c) && {
                &&& c.indent == old(self).indent + 1
                &&& c.writer@ == old(self).writer@ + arg_entry(
                    old(self).indent as nat,
                    lv_index,
                    match dst {
                        Some(d) => Some(names_view(d@)),
                        None => None,
                    },
                )
                &&& final(self).indent == old(self).indent
                &&& *final(self).writer == *final(c.writer)
                &&& *final(final(self).writer) == *final(old(self).writer)
            },
    {
        let ka: [u8; 3] = [0x41, 0x52, 0x47];
        assert(ka@ == kw_arg());
        let lv: i32 = match lv_index {
            Some(i) => i as i32,
            None => -1,
        };
        push_tabs(self.writer, self.indent);
        crate::strs::push_all(self.writer, &ka);
        self.writer.push(SEPARATOR);
        push_int(self.writer, lv as i64);
        self.writer.push(SEPARATOR);
        let empty: [Vec<u8>; 0] = [];
        let names: &[Vec<u8>] = match dst {
            Some(d) => d,
            None => &empty,
        };
        proof {
            if dst is None {
                assert(names_view(names@) =~= Seq::<Seq<u8>>::empty());
            }
        }
        push_first_or_dash(self.writer, names);
        self.writer.push(0x0au8);
        assert(self.writer@ =~= old(self).writer@ + arg_entry(
            old(self).indent as nat,
            lv_index,
            match dst {
                Some(d) => Some(names_view(d@)),
                None => None,
            },
        ));
        Ok(self.fork())
    }

    /// Method variables have no Enigma form: always an error, nothing written.
    pub fn serialize_method_var(
        &mut self,
        src: Option<&[u8]>,
        dst: Option<&[Vec<u8>]>,
        lv_index: Option<usize>,
        lvt_row_index: Option<usize>,
        op_idx: Option<(usize, Option<usize>)>,
    ) -> (r: Result<Serializer<'_>, Error>)
        ensures
            r matches Err(e) && e.line == 0 && e.col == 0 && e.kind@ == SpecErrorKind::Unsupported("method variable"),
            *final(self) == *old(self),
    {
        Err(Error::new(ErrorKind::Unsupported("method variable")))
    }
}

/// How deep the entries of an element nest, the element's own line counted.
pub open spec fn height(e: SpecElement) -> nat
    decreases e,
{
    match e {
        SpecElement::Class { content, .. } => 1 + heights(content),
        SpecElement::Field { content, .. } => 1 + heights(content),
        SpecElement::Method { content, .. } => 1 + heights(content),
        SpecElement::MethodArg { content, .. } => 1 + heights(content),
        SpecElement::MethodVar { content, .. } => 1 + heights(content),
        SpecElement::Comment(_) => 1,
    }
}

/// The greatest height among `es`.
pub open spec fn heights(es: Seq<SpecElement>) -> nat
    decreases es,
{
    if es.len() == 0 {
        0
    } else {
        let h = height(es[0]);
        let t = heights(es.subrange(1, es.len() as int));
        if h > t {
            h
        } else {
            t
        }
    }
}

/// What serializing `e` at depth `depth` writes, and the error it stops at, if any.
pub open spec fn emit(e: SpecElement, depth: nat) -> (Seq<u8>, Option<SpecErrorKind>)
    decreases e,
{
    match e {
        SpecElement::Class { src, dst, content } => {
            let (b, err) = emit_all(content, depth + 1);
            (class_entry(depth, src, dst) + b, err)
        },
        SpecElement::Field { src, dst, desc, content, .. } => match desc {
            None => (Seq::empty(), Some(SpecErrorKind::MissingToWrite("desc"))),
            Some(d) => {
                let (b, err) = emit_all(content, depth + 1);
                (member_entry(depth, kw_field(), src, dst, d) + b, err)
            },
        },
        SpecElement::Method { src, dst, desc, content, .. } => match desc {
            None => (Seq::empty(), Some(SpecErrorKind::MissingToWrite("desc"))),
            Some(d) => {
                let (b, err) = emit_all(content, depth + 1);
                (member_entry(depth, kw_method(), src, dst, d) + b, err)
            },
        },
        SpecElement::MethodArg { dst, lv_index, content, .. } => {
            let (b, err) = emit_all(content, depth + 1);
            (arg_entry(depth, lv_index, dst) + b, err)
        },
        SpecElement::MethodVar { .. } => (
            Seq::empty(),
            Some(SpecErrorKind::Unsupported("method variable")),
        ),
        SpecElement::Comment(c) => (comment_entries(depth, text_lines(c)), None),
    }
}

/// What serializing `es` one after another at depth `depth` writes, up to the first error.
pub open spec fn emit_all(es: Seq<SpecElement>, depth: nat) -> (Seq<u8>, Option<SpecErrorKind>)
    decreases es,
{
    if es.len() == 0 {
        (Seq::empty(), None)
    } else {
        let (b, err) = emit(es[0], depth);
        match err {
            Some(k) => (b, Some(k)),
            None => {
                let (b2, err2) = emit_all(es.subrange(1, es.len() as int), depth);
                (b + b2, err2)
            },
        }
    }
}

/// No element of `es` is higher than `heights(es)`.
pub proof fn lemma_heights(es: Seq<SpecElement>, i: int)
    requires
        0 <= i < es.len(),
    ensures
        height(es[i]) <= heights(es),
    decreases es.len(),
{
    if i > 0 {
        let t = es.subrange(1, es.len() as int);
        lemma_heights(t, i - 1);
        assert(t[i - 1] == es[i]);
    }
}

/// Serializing the elements from index `i` on: the element at `i` first, then those after it.
proof fn lemma_emit_all_step(es: Seq<SpecElement>, i: int, depth: nat)
    requires
        0 <= i < es.len(),
    ensures
        emit_all(es.subrange(i, es.len() as int), depth) == ({
            let (b, err) = emit(es[i], depth);
            match err {
                Some(k) => (b, Some(k)),
                None => {
                    let (b2, err2) = emit_all(es.subrange(i + 1, es.len() as int), depth);
                    (b + b2, err2)
                },
            }
        }),
{
    let s = es.subrange(i, es.len() as int);
    assert(s[0] == es[i]);
    assert(s.subrange(1, s.len() as int) =~= es.subrange(i + 1, es.len() as int));
}

impl<'a> Serializer<'a> {
    /// Serializes an element with its content: what `emit` describes.
    pub fn serialize_element(&mut self, e: &Element) -> (r: Result<(), Error>)
        requires
            old(self).indent + height(e.view()) <= usize::MAX,
        ensures
            final(self).indent == old(self).indent,
            *final(final(self).writer) == *final(old(self).writer),
            final(self).writer@ == old(self).writer@ + emit(e.view(), old(self).indent as nat).0,
            match emit(e.view(), old(self).indent as nat).1 {
                None => r is Ok,
                Some(k) => r matches Err(x) && x.kind@ == k && x.line == 0 && x.col == 0,
            },
        decreases height(e.view()), 0nat,
    {
        match e {
            Element::Class(c) => {
                let mut child = match self.serialize_class(c.src.as_slice(), c.dst.as_slice()) {
                    Ok(ch) => ch,
                    Err(x) => {
                        return Err(x);
                    },
                };
                child.serialize_elements(c.content.as_slice())
            },
            Element::Field(f) => {
                let desc: Option<&[u8]> = match &f.desc {
                    Some(d) => Some(d.as_slice()),
                    None => None,
                };
                let mut child = match self.serialize_field(f.src.as_slice(), desc, f.dst.as_slice(), None) {
                    Ok(ch) => ch,
                    Err(x) => {
                        return Err(x);
                    },
                };
                child.serialize_elements(f.content.as_slice())
            },
            Element::Method(f) => {
                let desc: Option<&[u8]> = match &f.desc {
                    Some(d) => Some(d.as_slice()),
                    None => None,
                };
                let mut child = match self.serialize_method(f.src.as_slice(), desc, f.dst.as_slice(), None) {
                    Ok(ch) => ch,
                    Err(x) => {
                        return Err(x);
                    },
                };
                child.serialize_elements(f.content.as_slice())
            },
            Element::MethodArg(a) => {
                let src: Option<&[u8]> = match &a.src {
                    Some(x) => Some(x.as_slice()),
                    None => None,
                };
                let dst: Option<&[Vec<u8>]> = match &a.dst {
                    Some(d) => Some(d.as_slice()),
                    None => None,
                };
                let mut child = match self.serialize_method_arg(src, dst, a.pos, a.lv_index) {
                    Ok(ch) => ch,
                    Err(x) => {
                        return Err(x);
                    },
                };
                child.serialize_elements(a.content.as_slice())
            },
            Element::MethodVar(v) => {
                match self.serialize_method_var(None, None, v.lv_index, v.lvt_row_index, v.op_idx) {
                    Ok(_) => Ok(()),
                    Err(x) => Err(x),
                }
            },
            Element::Comment(c) => {
                let r = self.serialize_comment(c.as_slice());
                r
            },
        }
    }

    /// Serializes elements one after another, stopping at the first error: what `emit_all`
    /// describes.
    pub fn serialize_elements(&mut self, es: &[Element]) -> (r: Result<(), Error>)
        requires
            old(self).indent + heights(elements_view(es@)) <= usize::MAX,
        ensures
            final(self).indent == old(self).indent,
            *final(final(self).writer) == *final(old(self).writer),
            final(self).writer@ == old(self).writer@ + emit_all(
                elements_view(es@),
                old(self).indent as nat,
            ).0,
            match emit_all(elements_view(es@), old(self).indent as nat).1 {
                None => r is Ok,
                Some(k) => r matches Err(x) && x.kind@ == k && x.line == 0 && x.col == 0,
            },
        decreases heights(elements_view(es@)), 1nat,
    {
        let ghost ev = elements_view(es@);
        let ghost d = self.indent as nat;
        proof {
            crate::element::lemma_elements_view_len(es@);
            assert(ev.subrange(0, ev.len() as int) == ev);
        }
        let mut i: usize = 0;
        while i < es.len()
            invariant
                i <= es@.len(),
                ev == elements_view(es@),
                ev.len() == es@.len(),
                forall|j: int| 0 <= j < es@.len() ==> #[trigger] ev[j] == es@[j].view(),
                d == old(self).indent,
                self.indent == old(self).indent,
                *final(self.writer) == *final(old(self).writer),
                self.indent + heights(ev) <= usize::MAX,
                old(self).writer@ + emit_all(ev, d).0 == self.writer@ + emit_all(
                    ev.subrange(i as int, ev.len() as int),
                    d,
                ).0,
                emit_all(ev, d).1 == emit_all(ev.subrange(i as int, ev.len() as int), d).1,
            decreases es@.len() - i,
        {
            proof {
                lemma_heights(ev, i as int);
                lemma_emit_all_step(ev, i as int, d);
            }
            let ghost before = self.writer@;
            match self.serialize_element(&es[i]) {
                Err(x) => {
                    return Err(x);
                },
                Ok(()) => {},
            }
            proof {
                let (b, _) = emit(ev[i as int], d);
                let (b2, _) = emit_all(ev.subrange(i + 1, ev.len() as int), d);
                assert(before + (b + b2) == self.writer@ + b2);
            }
            i = i + 1;
        }
        proof {
            assert(ev.subrange(i as int, ev.len() as int) =~= Seq::<SpecElement>::empty());
            assert(self.writer@ + Seq::<u8>::empty() == self.writer@);
        }
        Ok(())
    }
}

/// Serializes an element into the given buffer, after what it holds.
pub fn to_writer(writer: &mut Vec<u8>, value: &Element) -> (r: Result<(), Error>)
    requires
        height(value.view()) <= usize::MAX,
    ensures
        final(writer)@ == old(writer)@ + emit(value.view(), 0).0,
        match emit(value.view(), 0).1 {
            None => r is Ok,
            Some(k) => r matches Err(x) && x.kind@ == k && x.line == 0 && x.col == 0,
        },
{
    let mut ser = Serializer::new(writer);
    ser.serialize_element(value)
}

/// Serializes an element into a new buffer.
pub fn to_vec(value: &Element) -> (r: Result<Vec<u8>, Error>)
    requires
        height(value.view()) <= usize::MAX,
    ensures
        match emit(value.view(), 0).1 {
            None => r matches Ok(v) && v@ == emit(value.view(), 0).0,
            Some(k) => r matches Err(x) && x.kind@ == k && x.line == 0 && x.col == 0,
        },
{
    let mut vec: Vec<u8> = Vec::new();
    match to_writer(&mut vec, value) {
        Ok(()) => Ok(vec),
        Err(e) => Err(e),
    }
}

} // verus!
