//! Tiny V1 mapping files: a header line `v1 src dst..`, property lines `# key value`, then one
//! flat entry per line: `CLASS`, `FIELD` or `METHOD`, columns separated by tabs. Fields and
//! methods name their class by its source name.
use vstd::prelude::*;
use vstd::utf8::valid_utf8;
use crate::bytemap::{keys_sorted, lookup, sorted_insert, ByteMap};
use crate::bytes::{is_ascii_ws, split_once, trim_end};
use crate::cursor::{measure, next_pos, next_pos_line, pos_of, reader_ok, LineReader, Pos};
use crate::element::{elements_view, names_view, Class, Element, Field, Method, SpecElement};
use crate::error::{Error, ErrorKind, SpecErrorKind};
use crate::io::{
    opt_view_vec, spec_all_cols, spec_read_col, ColState, ColumnReadAdapter, ColumnReader,
    SliceReader,
};
use crate::names::{names_new, names_of, names_push, NameList};
use crate::proguard::start_pos;
use crate::ser::{Impossible, Skip};
use crate::strs::{eq_bytes, starts_with};
use crate::tiny2::names_text;
use crate::text::is_utf8;

verus! {

/// Indentation byte of Tiny V1 readers: lines are not indented.
pub const INDENT: u8 = 0x00u8;

/// Column separator of Tiny V1 files.
pub const SEPARATOR: u8 = 0x09u8;

pub open spec fn kw_v1() -> Seq<u8> {
    seq![0x76u8, 0x31u8]
}

pub open spec fn kw_class() -> Seq<u8> {
    seq![0x43u8, 0x4cu8, 0x41u8, 0x53u8, 0x53u8]
}

pub open spec fn kw_field() -> Seq<u8> {
    seq![0x46u8, 0x49u8, 0x45u8, 0x4cu8, 0x44u8]
}

pub open spec fn kw_method() -> Seq<u8> {
    seq![0x4du8, 0x45u8, 0x54u8, 0x48u8, 0x4fu8, 0x44u8]
}

/// The prefix `# ` of a property line.
pub open spec fn prop_prefix() -> Seq<u8> {
    seq![0x23u8, 0x20u8]
}

/// One flat entry of a Tiny V1 file.
pub ghost enum SpecEntry {
    Class { name: Seq<u8>, dst: Seq<Seq<u8>> },
    Field { parent: Seq<u8>, desc: Seq<u8>, name: Seq<u8>, dst: Seq<Seq<u8>> },
    Method { parent: Seq<u8>, desc: Seq<u8>, name: Seq<u8>, dst: Seq<Seq<u8>> },
}

/// The columns that are UTF-8, in order; the others are passed over.
pub open spec fn utf8_only(cols: Seq<Seq<u8>>) -> Seq<Seq<u8>>
    decreases cols.len(),
{
    if cols.len() == 0 {
        Seq::empty()
    } else if valid_utf8(cols[0]) {
        seq![cols[0]] + utf8_only(cols.drop_first())
    } else {
        utf8_only(cols.drop_first())
    }
}

/// Column `i`, which must be present and UTF-8.
pub open spec fn need_col(cols: Seq<Seq<u8>>, i: int, section: &'static str) -> Result<Seq<u8>, SpecErrorKind> {
    if i >= cols.len() {
        Err(SpecErrorKind::MissingField(section))
    } else if !valid_utf8(cols[i]) {
        Err(SpecErrorKind::Utf8)
    } else {
        Ok(cols[i])
    }
}

/// A field or method entry from its columns after the type.
pub open spec fn member_entry(cols: Seq<Seq<u8>>, is_method: bool) -> Result<SpecEntry, SpecErrorKind> {
    match need_col(cols, 0, "parent-class-name-a") {
        Err(e) => Err(e),
        Ok(parent) => match need_col(cols, 1, if is_method {
            "method-desc-a"
        } else {
            "field-desc-a"
        }) {
            Err(e) => Err(e),
            Ok(desc) => match need_col(cols, 2, if is_method {
                "method-name-a"
            } else {
                "field-name-a"
            }) {
                Err(e) => Err(e),
                Ok(name) => {
                    let dst = utf8_only(cols.subrange(3, cols.len() as int));
                    if is_method {
                        Ok(SpecEntry::Method { parent, desc, name, dst })
                    } else {
                        Ok(SpecEntry::Field { parent, desc, name, dst })
                    }
                },
            },
        },
    }
}

/// An entry of type `ty` (a known one) from its columns after the type.
pub open spec fn entry_of(ty: Seq<u8>, cols: Seq<Seq<u8>>) -> Result<SpecEntry, SpecErrorKind> {
    if ty == kw_class() {
        match need_col(cols, 0, "class-name-a") {
            Err(e) => Err(e),
            Ok(name) => Ok(SpecEntry::Class { name, dst: utf8_only(cols.drop_first()) }),
        }
    } else {
        member_entry(cols, ty == kw_method())
    }
}

/// Law: with every column UTF-8, a class entry is named by its first column, with every later
/// column (empty ones too) a destination name, in order; a field or method entry has its parent,
/// descriptor and name in its first three columns and every later column a destination name.
pub proof fn lemma_entry_cols(ty: Seq<u8>, cols: Seq<Seq<u8>>)
    requires
        forall|i: int| 0 <= i < cols.len() ==> valid_utf8(#[trigger] cols[i]),
    ensures
        ty == kw_class() && cols.len() >= 1 ==> entry_of(ty, cols) == Ok::<SpecEntry, SpecErrorKind>(
            SpecEntry::Class { name: cols[0], dst: cols.subrange(1, cols.len() as int) },
        ),
        ty == kw_field() && cols.len() >= 3 ==> entry_of(ty, cols) == Ok::<SpecEntry, SpecErrorKind>(
            SpecEntry::Field { parent: cols[0], desc: cols[1], name: cols[2], dst: cols.subrange(3, cols.len() as int) },
        ),
        ty == kw_method() && cols.len() >= 3 ==> entry_of(ty, cols) == Ok::<SpecEntry, SpecErrorKind>(
            SpecEntry::Method { parent: cols[0], desc: cols[1], name: cols[2], dst: cols.subrange(3, cols.len() as int) },
        ),
{
    if cols.len() >= 1 {
        let t = cols.drop_first();
        assert forall|i: int| 0 <= i < t.len() implies valid_utf8(#[trigger] t[i]) by {
            assert(t[i] == cols[i + 1]);
        }
        lemma_utf8_only_all(t);
        assert(t =~= cols.subrange(1, cols.len() as int));
    }
    if cols.len() >= 3 {
        let t = cols.subrange(3, cols.len() as int);
        assert forall|i: int| 0 <= i < t.len() implies valid_utf8(#[trigger] t[i]) by {
            assert(t[i] == cols[i + 3]);
        }
        lemma_utf8_only_all(t);
    }
    assert(kw_class()[0] != kw_field()[0]);
    assert(kw_class()[0] != kw_method()[0]);
    assert(kw_field()[0] != kw_method()[0]);
}

/// UTF-8 columns are all kept, in order.
proof fn lemma_utf8_only_all(cols: Seq<Seq<u8>>)
    requires
        forall|i: int| 0 <= i < cols.len() ==> valid_utf8(#[trigger] cols[i]),
    ensures
        utf8_only(cols) == cols,
    decreases cols.len(),
{
    if cols.len() > 0 {
        let t = cols.drop_first();
        assert forall|i: int| 0 <= i < t.len() implies valid_utf8(#[trigger] t[i]) by {
            assert(t[i] == cols[i + 1]);
        }
        lemma_utf8_only_all(t);
        assert(seq![cols[0]] + t =~= cols);
    }
}

/// Law: appending a column keeps it exactly when it is UTF-8, after the columns kept before.
pub proof fn lemma_utf8_only_push(cols: Seq<Seq<u8>>, extra: Seq<u8>)
    ensures
        utf8_only(cols.push(extra)) == if valid_utf8(extra) {
            utf8_only(cols).push(extra)
        } else {
            utf8_only(cols)
        },
    decreases cols.len(),
{
    if cols.len() == 0 {
        let one = cols.push(extra);
        assert(one.len() == 1 && one[0] == extra);
        assert(one.drop_first() =~= Seq::<Seq<u8>>::empty());
        assert(utf8_only(one.drop_first()) == Seq::<Seq<u8>>::empty());
        assert(utf8_only(cols) == Seq::<Seq<u8>>::empty());
        assert(seq![extra] + Seq::<Seq<u8>>::empty() =~= Seq::<Seq<u8>>::empty().push(extra));
    } else {
        let all = cols.push(extra);
        assert(all[0] == cols[0]);
        assert(all.drop_first() =~= cols.drop_first().push(extra));
        lemma_utf8_only_push(cols.drop_first(), extra);
        if valid_utf8(cols[0]) {
            assert(seq![cols[0]] + utf8_only(cols.drop_first()).push(extra) =~= (seq![cols[0]] + utf8_only(
                cols.drop_first(),
            )).push(extra));
        }
    }
}

/// Whether `ty` is a known entry type.
pub open spec fn known_type(ty: Seq<u8>) -> bool {
    ty == kw_class() || ty == kw_field() || ty == kw_method()
}

/// The next entry from position `p`, and the position after it; `None` at the end of input.
pub open spec fn next_entry(p: Pos) -> (Result<Option<SpecEntry>, SpecErrorKind>, Pos) {
    let (has_line, p1) = if p.fresh {
        (true, p)
    } else {
        let (r, p1) = next_pos(p, INDENT);
        (r is Some, p1)
    };
    if !has_line {
        (Ok(None), p1)
    } else {
        let (c, st2) = spec_read_col(p1.st, SEPARATOR);
        match c {
            None => (Ok(None), Pos { st: st2, fresh: false }),
            Some(ty) => if !known_type(ty) {
                (Err(SpecErrorKind::InvalidEntry(ty)), Pos { st: st2, fresh: false })
            } else {
                let (cols, st3) = spec_all_cols(st2, SEPARATOR);
                match entry_of(ty, cols) {
                    Ok(e) => (Ok(Some(e)), Pos { st: st3, fresh: false }),
                    Err(e) => (Err(e), Pos { st: st3, fresh: false }),
                }
            },
        }
    }
}

/// Taking an entry moves the reader forward.
pub proof fn lemma_next_entry_measure(p: Pos)
    ensures
        measure(next_entry(p).1) <= measure(p),
        next_entry(p).0 matches Ok(Some(_)) ==> measure(next_entry(p).1) < measure(p),
{
    crate::cursor::lemma_skip_progress(p.st, INDENT);
    let (has_line, p1) = if p.fresh {
        (true, p)
    } else {
        let (r, p1) = next_pos(p, INDENT);
        (r is Some, p1)
    };
    if has_line {
        crate::io::lemma_read_col_progress(p1.st, SEPARATOR);
        let (c, st2) = spec_read_col(p1.st, SEPARATOR);
        crate::cursor::lemma_all_cols_cols(st2, SEPARATOR);
    }
}

/// A column of the header: present and UTF-8.
pub open spec fn take_utf8(st: ColState, section: &'static str) -> (Result<Seq<u8>, SpecErrorKind>, ColState) {
    let (c, st2) = spec_read_col(st, SEPARATOR);
    match c {
        None => (Err(SpecErrorKind::MissingField(section)), st2),
        Some(b) => if valid_utf8(b) {
            (Ok(b), st2)
        } else {
            (Err(SpecErrorKind::Utf8), st2)
        },
    }
}

/// The columns left on the line, each of which must be UTF-8.
pub open spec fn take_utf8_cols(st: ColState) -> (Result<Seq<Seq<u8>>, SpecErrorKind>, ColState)
    decreases crate::io::line_potential(st),
{
    let (c, st2) = spec_read_col(st, SEPARATOR);
    match c {
        None => (Ok(Seq::empty()), st2),
        Some(b) => if !valid_utf8(b) {
            (Err(SpecErrorKind::Utf8), st2)
        } else if crate::io::line_potential(st2) < crate::io::line_potential(st) {
            let (r, st3) = take_utf8_cols(st2);
            match r {
                Ok(ns) => (Ok(seq![b] + ns), st3),
                Err(e) => (Err(e), st3),
            }
        } else {
            (Ok(seq![b]), st2)
        },
    }
}

/// The key and value of a property line, the prefix taken off: the text trimmed at its end,
/// split at its first space.
pub open spec fn prop_of(text: Seq<u8>) -> (Seq<u8>, Option<Seq<u8>>) {
    let t = trim_end(text);
    match split_once(t, 0x20u8) {
        Some((k, v)) => (k, Some(v)),
        None => (t, None),
    }
}

/// The property lines from position `p`, added to `acc`; the position after them, at the first
/// line that is not one.
pub open spec fn props_from(p: Pos, acc: Seq<(Seq<u8>, Option<Seq<u8>>)>) -> (Result<Seq<(Seq<u8>, Option<Seq<u8>>)>, SpecErrorKind>, Pos)
    decreases p.st.rest.len(),
{
    let (r, p1) = next_pos(p, INDENT);
    match (r, p1.st.line) {
        (Some(_), Some(l)) => if crate::strs::has_prefix(l, prop_prefix()) {
            let text = l.subrange(2, l.len() as int);
            if !valid_utf8(text) {
                (Err(SpecErrorKind::Utf8), p1)
            } else {
                let (k, v) = prop_of(text);
                let acc2 = sorted_insert(acc, k, v);
                if p1.st.rest.len() < p.st.rest.len() {
                    props_from(p1, acc2)
                } else {
                    (Ok(acc2), p1)
                }
            }
        } else {
            (Ok(acc), p1)
        },
        _ => (Ok(acc), p1),
    }
}

/// What the header of a Tiny V1 file holds.
pub ghost struct SpecHeader {
    pub src: Seq<u8>,
    pub dst: Seq<u8>,
    pub extra: Seq<Seq<u8>>,
    pub props: Seq<(Seq<u8>, Option<Seq<u8>>)>,
}

/// Reading the header from position `p`: the first line with content, `v1` and the namespaces,
/// then the property lines.
pub open spec fn header(p: Pos) -> (Result<SpecHeader, SpecErrorKind>, Pos) {
    let (_, p1) = next_pos(p, INDENT);
    let (v, st1) = spec_read_col(p1.st, SEPARATOR);
    if v != Some(kw_v1()) {
        (Err(SpecErrorKind::Msg("wrong tiny version, expected v1")), Pos { st: st1, fresh: false })
    } else {
        let (a, st2) = take_utf8(st1, "namespace-a");
        match a {
            Err(e) => (Err(e), Pos { st: st2, fresh: false }),
            Ok(src) => {
                let (b, st3) = take_utf8(st2, "namespace-b");
                match b {
                    Err(e) => (Err(e), Pos { st: st3, fresh: false }),
                    Ok(dst) => {
                        let (x, st4) = take_utf8_cols(st3);
                        match x {
                            Err(e) => (Err(e), Pos { st: st4, fresh: false }),
                            Ok(extra) => {
                                let (pr, p5) = props_from(Pos { st: st4, fresh: false }, Seq::empty());
                                match pr {
                                    Err(e) => (Err(e), p5),
                                    Ok(props) => (Ok(SpecHeader { src, dst, extra, props }), p5),
                                }
                            },
                        }
                    },
                }
            },
        }
    }
}

/// One flat entry of a Tiny V1 file: a class with its destination names, or a field or method
/// with its class, descriptor, source name and destination names.
#[derive(Debug)]
pub enum Entry {
    Class { name: Vec<u8>, dst: Vec<Vec<u8>> },
    Field { parent: Vec<u8>, desc: Vec<u8>, name: Vec<u8>, dst: Vec<Vec<u8>> },
    Method { parent: Vec<u8>, desc: Vec<u8>, name: Vec<u8>, dst: Vec<Vec<u8>> },
}

impl Entry {
    /// The abstract entry.
    pub open spec fn view(&self) -> SpecEntry {
        match self {
            Entry::Class { name, dst } => SpecEntry::Class { name: name@, dst: names_view(dst@) },
            Entry::Field { parent, desc, name, dst } => SpecEntry::Field {
                parent: parent@,
                desc: desc@,
                name: name@,
                dst: names_view(dst@),
            },
            Entry::Method { parent, desc, name, dst } => SpecEntry::Method {
                parent: parent@,
                desc: desc@,
                name: name@,
                dst: names_view(dst@),
            },
        }
    }
}

/// Copies of the columns from index `from` on that are UTF-8.
fn utf8_cols(cols: &Vec<Vec<u8>>, from: usize) -> (r: Vec<Vec<u8>>)
    requires
        from <= cols@.len(),
    ensures
        names_view(r@) == utf8_only(names_view(cols@).subrange(from as int, cols@.len() as int)),
{
    let ghost all = names_view(cols@);
    let mut out: Vec<Vec<u8>> = Vec::new();
    let mut i: usize = from;
    proof {
        assert(names_view(out@) =~= Seq::<Seq<u8>>::empty());
        assert(Seq::<Seq<u8>>::empty() + utf8_only(all.subrange(i as int, all.len() as int)) =~= utf8_only(all.subrange(i as int, all.len() as int)));
    }
    while i < cols.len()
        invariant
            from <= i <= cols@.len(),
            all == names_view(cols@),
            all.len() == cols@.len(),
            utf8_only(all.subrange(from as int, cols@.len() as int)) == names_view(out@) + utf8_only(all.subrange(i as int, cols@.len() as int)),
        decreases cols@.len() - i,
    {
        let ghost rest = all.subrange(i as int, cols@.len() as int);
        assert(rest[0] == cols@[i as int]@);
        assert(rest.drop_first() =~= all.subrange(i + 1, cols@.len() as int));
        let ghost before = names_view(out@);
        if is_utf8(cols[i].as_slice()) {
            out.push(crate::strs::to_vec(cols[i].as_slice()));
            assert(names_view(out@) =~= before.push(cols@[i as int]@));
            assert(before + (seq![cols@[i as int]@] + utf8_only(rest.drop_first())) =~= names_view(out@) + utf8_only(rest.drop_first()));
        }
        i = i + 1;
    }
    proof {
        assert(all.subrange(i as int, cols@.len() as int) =~= Seq::<Seq<u8>>::empty());
        assert(names_view(out@) + Seq::<Seq<u8>>::empty() =~= names_view(out@));
    }
    out
}

/// Column `i`, which must be present and UTF-8, copied.
fn need(cols: &Vec<Vec<u8>>, i: usize, section: &'static str) -> (r: Result<Vec<u8>, ErrorKind>)
    ensures
        crate::enigma::bytes_result(r) == need_col(names_view(cols@), i as int, section),
{
    if i >= cols.len() {
        return Err(ErrorKind::MissingField(section));
    }
    assert(names_view(cols@)[i as int] == cols@[i as int]@);
    if !is_utf8(cols[i].as_slice()) {
        return Err(ErrorKind::Utf8);
    }
    Ok(crate::strs::to_vec(cols[i].as_slice()))
}

/// The outcome of parsing an entry.
pub open spec fn entry_result(r: Result<Entry, ErrorKind>) -> Result<SpecEntry, SpecErrorKind> {
    match r {
        Ok(e) => Ok(e.view()),
        Err(k) => Err(k@),
    }
}

/// Parses an entry of a known type from its columns after the type.
fn parse_entry(ty: &[u8], cols: &Vec<Vec<u8>>) -> (r: Result<Entry, ErrorKind>)
    requires
        known_type(ty@),
    ensures
        entry_result(r) == entry_of(ty@, names_view(cols@)),
{
    let kc: [u8; 5] = [0x43, 0x4c, 0x41, 0x53, 0x53];
    let km: [u8; 6] = [0x4d, 0x45, 0x54, 0x48, 0x4f, 0x44];
    assert(kc@ == kw_class());
    assert(km@ == kw_method());
    let ghost cv = names_view(cols@);
    if eq_bytes(ty, &kc) {
        let name = match need(cols, 0, "class-name-a") {
            Err(e) => {
                return Err(e);
            },
            Ok(v) => v,
        };
        let dst = utf8_cols(cols, 1);
        assert(cv.subrange(1, cv.len() as int) =~= cv.drop_first());
        return Ok(Entry::Class { name, dst });
    }
    let is_method = eq_bytes(ty, &km);
    let parent = match need(cols, 0, "parent-class-name-a") {
        Err(e) => {
            return Err(e);
        },
        Ok(v) => v,
    };
    let desc = match need(cols, 1, if is_method {
        "method-desc-a"
    } else {
        "field-desc-a"
    }) {
        Err(e) => {
            return Err(e);
        },
        Ok(v) => v,
    };
    let name = match need(cols, 2, if is_method {
        "method-name-a"
    } else {
        "field-name-a"
    }) {
        Err(e) => {
            return Err(e);
        },
        Ok(v) => v,
    };
    let dst = utf8_cols(cols, 3);
    if is_method {
        Ok(Entry::Method { parent, desc, name, dst })
    } else {
        Ok(Entry::Field { parent, desc, name, dst })
    }
}

/// Whether `ty` is a known entry type.
fn is_known(ty: &[u8]) -> (r: bool)
    ensures
        r == known_type(ty@),
{
    let kc: [u8; 5] = [0x43, 0x4c, 0x41, 0x53, 0x53];
    let kf: [u8; 5] = [0x46, 0x49, 0x45, 0x4c, 0x44];
    let km: [u8; 6] = [0x4d, 0x45, 0x54, 0x48, 0x4f, 0x44];
    assert(kc@ == kw_class());
    assert(kf@ == kw_field());
    assert(km@ == kw_method());
    eq_bytes(ty, &kc) || eq_bytes(ty, &kf) || eq_bytes(ty, &km)
}

/// Reads the next entry, as `next_entry` describes.
fn read_entry<'de>(read: &mut LineReader<'de>) -> (r: Result<Option<Entry>, Error>)
    requires
        reader_ok(*old(read), INDENT, SEPARATOR),
    ensures
        reader_ok(*final(read), INDENT, SEPARATOR),
        match next_entry(pos_of(*old(read))).0 {
            Ok(None) => r matches Ok(None),
            Ok(Some(e)) => r matches Ok(Some(x)) && x.view() == e,
            Err(k) => r matches Err(x) && x.kind@ == k && x.line == final(read).spec_line()
                && x.col == final(read).spec_col(),
        },
        pos_of(*final(read)) == next_entry(pos_of(*old(read))).1,
{
    if !read.is_fresh_line() {
        if next_pos_line(read).is_none() {
            return Ok(None);
        }
    }
    let ty = match read.read_col() {
        None => {
            return Ok(None);
        },
        Some(m) => crate::strs::to_vec(m.as_short()),
    };
    if !is_known(ty.as_slice()) {
        return Err(Error::new(ErrorKind::InvalidEntry(ty)).with_loc(read.line(), read.col()));
    }
    proof {
        crate::cursor::lemma_all_cols_cols(read.spec_state(), SEPARATOR);
    }
    let cols = read.iter_cols();
    assert(names_view(cols@) == cols@.map_values(|v: Vec<u8>| v@));
    match parse_entry(ty.as_slice(), &cols) {
        Ok(e) => Ok(Some(e)),
        Err(k) => Err(Error::new(k).with_loc(read.line(), read.col())),
    }
}

/// Reads a header column that must be present and UTF-8.
fn read_utf8<'de>(read: &mut LineReader<'de>, section: &'static str) -> (r: Result<Vec<u8>, ErrorKind>)
    requires
        reader_ok(*old(read), INDENT, SEPARATOR),
    ensures
        reader_ok(*final(read), INDENT, SEPARATOR),
        crate::enigma::bytes_result(r) == take_utf8(old(read).spec_state(), section).0,
        pos_of(*final(read)) == (Pos { st: take_utf8(old(read).spec_state(), section).1, fresh: false }),
{
    match read.read_col() {
        None => Err(ErrorKind::MissingField(section)),
        Some(m) => {
            let b = m.as_short();
            if is_utf8(b) {
                Ok(crate::strs::to_vec(b))
            } else {
                Err(ErrorKind::Utf8)
            }
        },
    }
}

/// Reads the columns left on the line, each of which must be UTF-8.
fn read_utf8_cols<'de>(read: &mut LineReader<'de>) -> (r: Result<Vec<Vec<u8>>, ErrorKind>)
    requires
        reader_ok(*old(read), INDENT, SEPARATOR),
    ensures
        reader_ok(*final(read), INDENT, SEPARATOR),
        match r {
            Ok(v) => take_utf8_cols(old(read).spec_state()).0 == Ok::<Seq<Seq<u8>>, SpecErrorKind>(names_view(v@)),
            Err(k) => take_utf8_cols(old(read).spec_state()).0 == Err::<Seq<Seq<u8>>, SpecErrorKind>(k@),
        },
        pos_of(*final(read)) == (Pos { st: take_utf8_cols(old(read).spec_state()).1, fresh: false }),
{
    let mut out: Vec<Vec<u8>> = Vec::new();
    let ghost st0 = read.spec_state();
    proof {
        assert(names_view(out@) =~= Seq::<Seq<u8>>::empty());
        if let Ok(ns) = take_utf8_cols(st0).0 {
            assert(Seq::<Seq<u8>>::empty() + ns =~= ns);
        }
    }
    loop
        invariant
            reader_ok(*read, INDENT, SEPARATOR),
            st0 == old(read).spec_state(),
            take_utf8_cols(st0).0 == crate::tiny2::prefix_names(names_view(out@), take_utf8_cols(read.spec_state()).0),
            take_utf8_cols(st0).1 == take_utf8_cols(read.spec_state()).1,
        decreases crate::io::line_potential(read.spec_state()),
    {
        proof {
            crate::io::lemma_read_col_progress(read.spec_state(), SEPARATOR);
        }
        let c = match read.read_col() {
            None => {
                proof {
                    assert(names_view(out@) + Seq::<Seq<u8>>::empty() =~= names_view(out@));
                }
                return Ok(out);
            },
            Some(m) => {
                let b = m.as_short();
                if !is_utf8(b) {
                    return Err(ErrorKind::Utf8);
                }
                crate::strs::to_vec(b)
            },
        };
        let ghost before = names_view(out@);
        out.push(c);
        proof {
            assert(names_view(out@) =~= before.push(c@));
            if let Ok(rest) = take_utf8_cols(read.spec_state()).0 {
                assert(before + (seq![c@] + rest) =~= names_view(out@) + rest);
            }
        }
    }
}

/// How many bytes of `s` stay once trailing ASCII whitespace is trimmed.
fn trim_end_len(s: &[u8]) -> (r: usize)
    ensures
        r <= s@.len(),
        s@.subrange(0, r as int) == trim_end(s@),
{
    let mut e: usize = s.len();
    while e > 0 && (s[e - 1] == 0x20u8 || s[e - 1] == 0x09u8 || s[e - 1] == 0x0au8 || s[e - 1] == 0x0cu8 || s[e - 1] == 0x0du8)
        invariant
            e <= s@.len(),
            forall|j: int| e <= j < s@.len() ==> is_ascii_ws(#[trigger] s@[j]),
        decreases e,
    {
        e = e - 1;
    }
    proof {
        crate::bytes::lemma_trim_end_at(s@, e as int);
    }
    e
}

/// The key and value of a property line, the prefix taken off.
fn prop_from(text: &[u8]) -> (r: (Vec<u8>, Option<Vec<u8>>))
    ensures
        (r.0@, opt_view_vec(r.1)) == prop_of(text@),
{
    let e = trim_end_len(text);
    let t = &text[0..e];
    assert(t@ == trim_end(text@));
    proof {
        crate::bytes::lemma_find_byte(t@, 0x20u8);
    }
    match crate::io::find_first(0x20u8, t) {
        Some(i) => (crate::strs::to_vec(&t[0..i]), Some(crate::strs::to_vec(&t[i + 1..e]))),
        None => (crate::strs::to_vec(t), None),
    }
}

/// Reads the property lines into a map.
fn read_props<'de>(read: &mut LineReader<'de>) -> (r: Result<ByteMap<Option<Vec<u8>>>, ErrorKind>)
    requires
        reader_ok(*old(read), INDENT, SEPARATOR),
    ensures
        reader_ok(*final(read), INDENT, SEPARATOR),
        match r {
            Ok(m) => m.wf() && props_from(pos_of(*old(read)), Seq::empty()).0 == Ok::<Seq<(Seq<u8>, Option<Seq<u8>>)>, SpecErrorKind>(crate::bytemap::text_entries(m.entries())),
            Err(k) => props_from(pos_of(*old(read)), Seq::empty()).0 == Err::<Seq<(Seq<u8>, Option<Seq<u8>>)>, SpecErrorKind>(k@),
        },
        pos_of(*final(read)) == props_from(pos_of(*old(read)), Seq::empty()).1,
{
    let mut props: ByteMap<Option<Vec<u8>>> = ByteMap::new();
    let ghost p0 = pos_of(*read);
    let pre: [u8; 2] = [0x23, 0x20];
    assert(pre@ == prop_prefix());
    proof {
        assert(crate::bytemap::text_entries(props.entries()) =~= Seq::<(Seq<u8>, Option<Seq<u8>>)>::empty());
    }
    loop
        invariant
            reader_ok(*read, INDENT, SEPARATOR),
            props.wf(),
            p0 == pos_of(*old(read)),
            pre@ == prop_prefix(),
            props_from(p0, Seq::empty()) == props_from(pos_of(*read), crate::bytemap::text_entries(props.entries())),
        decreases read.spec_state().rest.len(),
    {
        let ghost p = pos_of(*read);
        let ghost acc = props.entries();
        proof {
            crate::cursor::lemma_skip_progress(p.st, INDENT);
        }
        if next_pos_line(read).is_none() {
            return Ok(props);
        }
        let kv = match read.this_line() {
            None => None,
            Some(l) => {
                let b = l.as_short();
                if starts_with(b, &pre) {
                    let text = &b[2..b.len()];
                    assert(text@ == b@.subrange(2, b@.len() as int));
                    if !is_utf8(text) {
                        return Err(ErrorKind::Utf8);
                    }
                    Some(prop_from(text))
                } else {
                    None
                }
            },
        };
        match kv {
            None => {
                return Ok(props);
            },
            Some((k, v)) => {
                proof {
                    crate::bytemap::lemma_map_insert(acc, |x: Option<Vec<u8>>| opt_view_vec(x), k@, v);
                }
                props.insert(k, v);
            },
        }
    }
}

/// Deserializer of the flat entries of a Tiny V1 mapping file.
#[derive(Debug)]
pub struct StreamDeserializer<'de> {
    namespace_a: Vec<u8>,
    namespace_b: Vec<u8>,
    extra_namespaces: Vec<Vec<u8>>,
    props: ByteMap<Option<Vec<u8>>>,
    read: LineReader<'de>,
}

impl<'de> StreamDeserializer<'de> {
    /// Where the reader stands.
    pub closed spec fn pos(&self) -> Pos {
        pos_of(self.read)
    }

    /// The reader's consistency and the property map's order.
    pub closed spec fn wf(&self) -> bool {
        reader_ok(self.read, INDENT, SEPARATOR) && self.props.wf()
    }

    /// The source namespace.
    pub closed spec fn spec_src(&self) -> Seq<u8> {
        self.namespace_a@
    }

    /// The destination namespaces.
    pub closed spec fn spec_dst(&self) -> Seq<Seq<u8>> {
        seq![self.namespace_b@] + names_view(self.extra_namespaces@)
    }

    /// The properties, in key order.
    pub closed spec fn spec_props(&self) -> Seq<(Seq<u8>, Option<Seq<u8>>)> {
        crate::bytemap::text_entries(self.props.entries())
    }

    /// How many lines the reader has taken.
    pub closed spec fn spec_line(&self) -> usize {
        self.read.spec_line()
    }

    /// How many columns the reader has taken on its current line.
    pub closed spec fn spec_col(&self) -> usize {
        self.read.spec_col()
    }

    /// Creates a new stream deserializer over a column reader: reads the header and the
    /// properties. Fails where the input is not UTF-8 there, or lacks `v1` or a namespace.
    pub fn new(read: ColumnReadAdapter<SliceReader<'de>>) -> (r: Result<Self, Error>)
        requires
            crate::io::ColumnRead::spec_wf(&read),
            crate::io::col_state_bounded(crate::io::ColumnRead::spec_state(&read)),
        ensures
            ({
                let (h, p) = header(Pos { st: crate::io::ColumnRead::spec_state(&read), fresh: false });
                match h {
                    Ok(hd) => r matches Ok(d) && {
                        &&& d.wf()
                        &&& d.pos() == p
                        &&& d.spec_src() == hd.src
                        &&& d.spec_dst() == seq![hd.dst] + hd.extra
                        &&& d.spec_props() == hd.props
                    },
                    Err(k) => r matches Err(e) && e.kind@ == k && e.line == 0 && e.col == 0,
                }
            }),
    {
        let mut read = ColumnReader::new(INDENT, SEPARATOR, read);
        proof {
            crate::cursor::lemma_skip_slice::<'de>(read.spec_state(), INDENT);
        }
        let _ = read.next_line();
        let v1: [u8; 2] = [0x76, 0x31];
        assert(v1@ == kw_v1());
        let is_v1 = match read.read_col() {
            Some(m) => eq_bytes(m.as_short(), &v1),
            None => false,
        };
        if !is_v1 {
            return Err(Error::new(ErrorKind::Msg("wrong tiny version, expected v1")));
        }
        let namespace_a = match read_utf8(&mut read, "namespace-a") {
            Err(k) => {
                return Err(Error::new(k));
            },
            Ok(v) => v,
        };
        let namespace_b = match read_utf8(&mut read, "namespace-b") {
            Err(k) => {
                return Err(Error::new(k));
            },
            Ok(v) => v,
        };
        let extra_namespaces = match read_utf8_cols(&mut read) {
            Err(k) => {
                return Err(Error::new(k));
            },
            Ok(v) => v,
        };
        let props = match read_props(&mut read) {
            Err(k) => {
                return Err(Error::new(k));
            },
            Ok(m) => m,
        };
        Ok(StreamDeserializer { namespace_a, namespace_b, extra_namespaces, props, read })
    }

    /// Creates a new stream deserializer over the given slice.
    pub fn from_slice(slice: &'de [u8]) -> (r: Result<Self, Error>)
        requires
            slice@.len() < usize::MAX,
        ensures
            ({
                let (h, p) = header(start_pos(slice@));
                match h {
                    Ok(hd) => r matches Ok(d) && {
                        &&& d.wf()
                        &&& d.pos() == p
                        &&& d.spec_src() == hd.src
                        &&& d.spec_dst() == seq![hd.dst] + hd.extra
                        &&& d.spec_props() == hd.props
                    },
                    Err(k) => r matches Err(e) && e.kind@ == k && e.line == 0 && e.col == 0,
                }
            }),
    {
        Self::new(ColumnReadAdapter::new(SliceReader::new(slice)))
    }

    /// Returns the source namespace of this mapping.
    pub fn src(&self) -> (r: &[u8])
        ensures
            r@ == self.spec_src(),
    {
        self.namespace_a.as_slice()
    }

    /// Returns the destination namespaces of this mapping: the first, then the extra ones.
    pub fn dst(&self) -> (r: Vec<&[u8]>)
        ensures
            r@.len() == self.spec_dst().len(),
            forall|i: int| 0 <= i < r@.len() ==> (#[trigger] r@[i])@ == self.spec_dst()[i],
    {
        let mut out: Vec<&[u8]> = Vec::new();
        out.push(self.namespace_b.as_slice());
        let mut i: usize = 0;
        while i < self.extra_namespaces.len()
            invariant
                i <= self.extra_namespaces@.len(),
                out@.len() == i + 1,
                out@[0]@ == self.namespace_b@,
                forall|j: int| 1 <= j <= i ==> (#[trigger] out@[j])@ == self.extra_namespaces@[j - 1]@,
            decreases self.extra_namespaces@.len() - i,
        {
            out.push(self.extra_namespaces[i].as_slice());
            i = i + 1;
        }
        proof {
            let d = self.spec_dst();
            assert forall|j: int| 0 <= j < out@.len() implies (#[trigger] out@[j])@ == d[j] by {
                if j > 0 {
                    assert(d[j] == names_view(self.extra_namespaces@)[j - 1]);
                }
            }
        }
        out
    }

    /// Returns the properties of this mapping, in key order.
    pub fn properties(&self) -> (r: Vec<(&[u8], Option<&[u8]>)>)
        ensures
            r@.len() == self.spec_props().len(),
            forall|i: int| 0 <= i < r@.len() ==> (#[trigger] r@[i]).0@ == self.spec_props()[i].0
                && match r@[i].1 {
                    Some(v) => self.spec_props()[i].1 == Some(v@),
                    None => self.spec_props()[i].1 is None,
                },
    {
        self.props.pairs()
    }

    /// Deserializes the next entry of this mapping file; `None` at the end of input.
    pub fn deserialize_next(&mut self) -> (r: Result<Option<Entry>, Error>)
        requires
            old(self).wf(),
        ensures
            final(self).wf(),
            final(self).spec_src() == old(self).spec_src(),
            final(self).spec_dst() == old(self).spec_dst(),
            final(self).spec_props() == old(self).spec_props(),
            match next_entry(old(self).pos()).0 {
                Ok(None) => r matches Ok(None),
                Ok(Some(e)) => r matches Ok(Some(x)) && x.view() == e,
                Err(k) => r matches Err(x) && x.kind@ == k && x.line == final(self).spec_line()
                    && x.col == final(self).spec_col(),
            },
            final(self).pos() == next_entry(old(self).pos()).1,
    {
        read_entry(&mut self.read)
    }
}

/// A field or method of an indexed class, in the abstract.
pub ghost struct SpecDescribed {
    pub is_method: bool,
    pub desc: Seq<u8>,
    pub name: Seq<u8>,
    pub dst: Seq<Seq<u8>>,
}

/// An indexed class, in the abstract: its destination names once its class entry was read, and
/// its fields and methods in the order they came.
pub ghost struct SpecIndexClass {
    pub parts: Option<Seq<Seq<u8>>>,
    pub contents: Seq<SpecDescribed>,
}

/// The state of building an index: the classes filed so far by source name, and the class that
/// the latest new class entry opened, which takes the entries that follow it directly.
pub ghost struct IndexState {
    pub map: Seq<(Seq<u8>, SpecIndexClass)>,
    pub cursor: Option<(Seq<u8>, SpecIndexClass)>,
}

/// The empty index state.
pub open spec fn index_start() -> IndexState {
    IndexState { map: Seq::empty(), cursor: None }
}

/// Files one entry. A class entry sets the destination names of a filed class of that name, or
/// else opens a new class in the cursor, filing the one the cursor held. A field or method goes
/// to the cursor's class when it names it, or else to the filed class of that name, which is
/// created without destination names when missing.
pub open spec fn index_step(s: IndexState, e: SpecEntry) -> IndexState {
    match e {
        SpecEntry::Class { name, dst } => match lookup(s.map, name) {
            Some(c) => IndexState {
                map: sorted_insert(s.map, name, SpecIndexClass { parts: Some(dst), contents: c.contents }),
                cursor: s.cursor,
            },
            None => IndexState {
                map: match s.cursor {
                    Some((k, c)) => sorted_insert(s.map, k, c),
                    None => s.map,
                },
                cursor: Some((name, SpecIndexClass { parts: Some(dst), contents: Seq::empty() })),
            },
        },
        SpecEntry::Field { parent, desc, name, dst } => file_described(
            s,
            parent,
            SpecDescribed { is_method: false, desc, name, dst },
        ),
        SpecEntry::Method { parent, desc, name, dst } => file_described(
            s,
            parent,
            SpecDescribed { is_method: true, desc, name, dst },
        ),
    }
}

/// Files a field or method under the class `parent`.
pub open spec fn file_described(s: IndexState, parent: Seq<u8>, d: SpecDescribed) -> IndexState {
    if s.cursor is Some && s.cursor->Some_0.0 == parent {
        let c = s.cursor->Some_0.1;
        IndexState { map: s.map, cursor: Some((parent, SpecIndexClass { parts: c.parts, contents: c.contents.push(d) })) }
    } else {
        IndexState {
            map: match lookup(s.map, parent) {
                Some(c) => sorted_insert(s.map, parent, SpecIndexClass { parts: c.parts, contents: c.contents.push(d) }),
                None => sorted_insert(s.map, parent, SpecIndexClass { parts: None, contents: seq![d] }),
            },
            cursor: s.cursor,
        }
    }
}

/// A consistent index state: filed classes in key order, and the cursor's class not filed.
pub open spec fn index_state_ok(s: IndexState) -> bool {
    &&& keys_sorted(s.map)
    &&& s.cursor matches Some((k, _)) ==> lookup(s.map, k) is None
}

/// The class `parent` once `d` is filed under it: its contents with `d` last, or a class of `d`
/// alone, without destination names, where none was filed.
pub open spec fn with_described(c: Option<SpecIndexClass>, d: SpecDescribed) -> SpecIndexClass {
    match c {
        Some(c) => SpecIndexClass { parts: c.parts, contents: c.contents.push(d) },
        None => SpecIndexClass { parts: None, contents: seq![d] },
    }
}

/// Filing a field or method under `parent` appends it to the contents of class `parent` in the
/// final index, and leaves every other class as it was.
pub proof fn lemma_file_described(s: IndexState, parent: Seq<u8>, d: SpecDescribed, q: Seq<u8>)
    requires
        index_state_ok(s),
    ensures
        index_state_ok(file_described(s, parent, d)),
        lookup(index_final(file_described(s, parent, d)), parent) == Some(
            with_described(lookup(index_final(s), parent), d),
        ),
        q != parent ==> lookup(index_final(file_described(s, parent, d)), q) == lookup(index_final(s), q),
{
    let s2 = file_described(s, parent, d);
    if s.cursor is Some && s.cursor->Some_0.0 == parent {
        let (k, c) = s.cursor->Some_0;
        crate::bytemap::lemma_lookup_insert(s.map, k, c, parent);
        crate::bytemap::lemma_lookup_insert(s.map, k, s2.cursor->Some_0.1, parent);
        crate::bytemap::lemma_lookup_insert(s.map, k, c, q);
        crate::bytemap::lemma_lookup_insert(s.map, k, s2.cursor->Some_0.1, q);
    } else {
        let v = with_described(lookup(s.map, parent), d);
        assert(s2.map == sorted_insert(s.map, parent, v));
        crate::bytemap::lemma_sorted_insert(s.map, parent, v);
        crate::bytemap::lemma_lookup_insert(s.map, parent, v, parent);
        crate::bytemap::lemma_lookup_insert(s.map, parent, v, q);
        match s.cursor {
            Some((k, c)) => {
                crate::bytemap::lemma_lookup_insert(s.map, parent, v, k);
                crate::bytemap::lemma_lookup_insert(s.map, k, c, parent);
                crate::bytemap::lemma_lookup_insert(s.map, k, c, q);
                crate::bytemap::lemma_lookup_insert(s2.map, k, c, parent);
                crate::bytemap::lemma_lookup_insert(s2.map, k, c, q);
            },
            None => {},
        }
    }
}

/// The class `name` once its class entry sets its destination names: what it held before, if
/// anything, keeps its fields and methods.
pub open spec fn with_parts(c: Option<SpecIndexClass>, dst: Seq<Seq<u8>>) -> SpecIndexClass {
    match c {
        Some(c) => SpecIndexClass { parts: Some(dst), contents: c.contents },
        None => SpecIndexClass { parts: Some(dst), contents: Seq::empty() },
    }
}

/// A consistent index state whose cursor holds a class opened by its class entry.
pub open spec fn index_state_good(s: IndexState) -> bool {
    &&& index_state_ok(s)
    &&& s.cursor matches Some((_, c)) ==> c.parts is Some
}

/// Filing a class entry for a class that had none sets its destination names in the final
/// index, keeping what was filed under it, and leaves every other class as it was.
pub proof fn lemma_file_class(s: IndexState, name: Seq<u8>, dst: Seq<Seq<u8>>, q: Seq<u8>)
    requires
        index_state_good(s),
        !(lookup(index_final(s), name) matches Some(c) && c.parts is Some),
    ensures
        index_state_good(index_step(s, SpecEntry::Class { name, dst })),
        lookup(index_final(index_step(s, SpecEntry::Class { name, dst })), name) == Some(
            with_parts(lookup(index_final(s), name), dst),
        ),
        q != name ==> lookup(index_final(index_step(s, SpecEntry::Class { name, dst })), q) == lookup(
            index_final(s),
            q,
        ),
{
    let s2 = index_step(s, SpecEntry::Class { name, dst });
    match s.cursor {
        Some((k, c)) => {
            crate::bytemap::lemma_lookup_insert(s.map, k, c, name);
            crate::bytemap::lemma_lookup_insert(s.map, k, c, q);
            assert(k != name);
        },
        None => {},
    }
    match lookup(s.map, name) {
        Some(c) => {
            let v = SpecIndexClass { parts: Some(dst), contents: c.contents };
            crate::bytemap::lemma_sorted_insert(s.map, name, v);
            crate::bytemap::lemma_lookup_insert(s.map, name, v, name);
            crate::bytemap::lemma_lookup_insert(s.map, name, v, q);
            match s.cursor {
                Some((k, cc)) => {
                    crate::bytemap::lemma_lookup_insert(s.map, name, v, k);
                    crate::bytemap::lemma_lookup_insert(s2.map, k, cc, name);
                    crate::bytemap::lemma_lookup_insert(s2.map, k, cc, q);
                },
                None => {},
            }
        },
        None => {
            match s.cursor {
                Some((k, c)) => {
                    crate::bytemap::lemma_sorted_insert(s.map, k, c);
                    crate::bytemap::lemma_lookup_insert(s.map, k, c, name);
                    crate::bytemap::lemma_lookup_insert(s.map, k, c, q);
                },
                None => {},
            }
            let v = SpecIndexClass { parts: Some(dst), contents: Seq::empty() };
            crate::bytemap::lemma_lookup_insert(s2.map, name, v, name);
            crate::bytemap::lemma_lookup_insert(s2.map, name, v, q);
        },
    }
}

/// What entry `e` does to class `q`.
pub open spec fn entry_on(acc: Option<SpecIndexClass>, e: SpecEntry, q: Seq<u8>) -> Option<SpecIndexClass> {
    match e {
        SpecEntry::Class { name, dst } => if name == q {
            Some(with_parts(acc, dst))
        } else {
            acc
        },
        SpecEntry::Field { parent, desc, name, dst } => if parent == q {
            Some(with_described(acc, SpecDescribed { is_method: false, desc, name, dst }))
        } else {
            acc
        },
        SpecEntry::Method { parent, desc, name, dst } => if parent == q {
            Some(with_described(acc, SpecDescribed { is_method: true, desc, name, dst }))
        } else {
            acc
        },
    }
}

/// Class `q` as the entries `es` build it from `acc`: its destination names from its class
/// entry, and its fields and methods in the order they come.
pub open spec fn class_from_entries(es: Seq<SpecEntry>, q: Seq<u8>, acc: Option<SpecIndexClass>) -> Option<SpecIndexClass>
    decreases es.len(),
{
    if es.len() == 0 {
        acc
    } else {
        class_from_entries(es.drop_first(), q, entry_on(acc, es[0], q))
    }
}

/// Every entry filed in turn.
pub open spec fn index_all(s: IndexState, es: Seq<SpecEntry>) -> IndexState
    decreases es.len(),
{
    if es.len() == 0 {
        s
    } else {
        index_all(index_step(s, es[0]), es.drop_first())
    }
}

/// No two class entries name the same class.
pub open spec fn classes_unique(es: Seq<SpecEntry>) -> bool {
    forall|i: int, j: int|
        0 <= i < j < es.len() && (#[trigger] es[i]) is Class && (#[trigger] es[j]) is Class ==> es[i]->Class_name
            != es[j]->Class_name
}

/// No class entry of `es` names a class that has its destination names in `s` already.
pub open spec fn classes_fresh(s: IndexState, es: Seq<SpecEntry>) -> bool {
    forall|i: int| 0 <= i < es.len() && (#[trigger] es[i]) is Class ==> !(lookup(index_final(s), es[i]->Class_name) matches Some(c)
        && c.parts is Some)
}

/// Filing the entries `es` in turn builds each class as `class_from_entries` says.
proof fn lemma_index_all(s: IndexState, es: Seq<SpecEntry>, q: Seq<u8>)
    requires
        index_state_good(s),
        classes_unique(es),
        classes_fresh(s, es),
    ensures
        index_state_good(index_all(s, es)),
        lookup(index_final(index_all(s, es)), q) == class_from_entries(es, q, lookup(index_final(s), q)),
    decreases es.len(),
{
    if es.len() > 0 {
        let e = es[0];
        let t = es.drop_first();
        let s2 = index_step(s, e);
        assert forall|x: Seq<u8>| #[trigger] lookup(index_final(s2), x) == entry_on(lookup(index_final(s), x), e, x)
            && index_state_good(s2) by {
            match e {
                SpecEntry::Class { name, dst } => {
                    assert(es[0] is Class);
                    lemma_file_class(s, name, dst, x);
                },
                SpecEntry::Field { parent, desc, name, dst } => {
                    lemma_file_described(s, parent, SpecDescribed { is_method: false, desc, name, dst }, x);
                },
                SpecEntry::Method { parent, desc, name, dst } => {
                    lemma_file_described(s, parent, SpecDescribed { is_method: true, desc, name, dst }, x);
                },
            }
        }
        assert(classes_unique(t)) by {
            assert forall|i: int, j: int|
                0 <= i < j < t.len() && (#[trigger] t[i]) is Class && (#[trigger] t[j]) is Class implies t[i]->Class_name
                != t[j]->Class_name by {
                assert(t[i] == es[i + 1] && t[j] == es[j + 1]);
            }
        }
        assert(classes_fresh(s2, t)) by {
            assert forall|i: int| 0 <= i < t.len() && (#[trigger] t[i]) is Class implies !(lookup(
                index_final(s2),
                t[i]->Class_name,
            ) matches Some(c) && c.parts is Some) by {
                assert(t[i] == es[i + 1]);
                let n = t[i]->Class_name;
                assert(lookup(index_final(s2), n) == entry_on(lookup(index_final(s), n), e, n));
                if e is Class {
                    assert(es[0]->Class_name != es[i + 1]->Class_name);
                }
            }
        }
        lemma_index_all(s2, t, q);
    }
}

/// The classes once every entry is filed: the cursor's class filed too.
pub open spec fn index_final(s: IndexState) -> Seq<(Seq<u8>, SpecIndexClass)> {
    match s.cursor {
        Some((k, c)) => sorted_insert(s.map, k, c),
        None => s.map,
    }
}

/// Files the entries from position `p` on, until the end of input or an error.
pub open spec fn index_from(p: Pos, s: IndexState) -> Result<IndexState, SpecErrorKind>
    decreases measure(p),
{
    let (r, p1) = next_entry(p);
    match r {
        Err(e) => Err(e),
        Ok(None) => Ok(s),
        Ok(Some(e)) => if measure(p1) < measure(p) {
            index_from(p1, index_step(s, e))
        } else {
            Ok(index_step(s, e))
        },
    }
}

/// The entries of a Tiny V1 file from position `p` on, until the end of input or an error.
pub open spec fn file_entries(p: Pos) -> Result<Seq<SpecEntry>, SpecErrorKind>
    decreases measure(p),
{
    let (r, p1) = next_entry(p);
    match r {
        Err(e) => Err(e),
        Ok(None) => Ok(Seq::empty()),
        Ok(Some(e)) => if measure(p1) < measure(p) {
            match file_entries(p1) {
                Ok(es) => Ok(seq![e] + es),
                Err(x) => Err(x),
            }
        } else {
            Ok(seq![e])
        },
    }
}

/// Indexing from `p` files the file's entries in turn.
proof fn lemma_index_from_entries(p: Pos, s: IndexState)
    ensures
        match file_entries(p) {
            Ok(es) => index_from(p, s) == Ok::<IndexState, SpecErrorKind>(index_all(s, es)),
            Err(e) => index_from(p, s) == Err::<IndexState, SpecErrorKind>(e),
        },
    decreases measure(p),
{
    lemma_next_entry_measure(p);
    let (r, p1) = next_entry(p);
    if let Ok(Some(e)) = r {
        lemma_index_from_entries(p1, index_step(s, e));
        if let Ok(es) = file_entries(p1) {
            let all = seq![e] + es;
            assert(all[0] == e);
            assert(all.drop_first() =~= es);
            assert(index_all(s, all) == index_all(index_step(s, e), es));
        }
    }
}

/// Indexing a whole Tiny V1 file whose class entries name distinct classes: each class of the
/// index holds the destination names of its class entry, if it had one, and every field and
/// method that names it as parent, in the order they come in the file; a name that no entry
/// mentions has no class.
pub proof fn lemma_index_whole_file(p: Pos, q: Seq<u8>)
    requires
        file_entries(p) matches Ok(es) && classes_unique(es),
    ensures
        index_from(p, index_start()) matches Ok(st) && lookup(index_final(st), q) == class_from_entries(
            file_entries(p)->Ok_0,
            q,
            None,
        ),
{
    let es = file_entries(p)->Ok_0;
    lemma_index_from_entries(p, index_start());
    assert(lookup(index_final(index_start()), q) is None);
    assert forall|x: Seq<u8>| lookup(index_final(index_start()), x) is None by {}
    lemma_index_all(index_start(), es, q);
}

/// A field or method of an indexed class as an element.
pub open spec fn described_element(d: SpecDescribed) -> SpecElement {
    if d.is_method {
        SpecElement::Method { src: d.name, dst: d.dst, desc: Some(d.desc), dst_desc: None, content: Seq::empty() }
    } else {
        SpecElement::Field { src: d.name, dst: d.dst, desc: Some(d.desc), dst_desc: None, content: Seq::empty() }
    }
}

/// An indexed class as an element.
pub open spec fn class_element(k: Seq<u8>, c: SpecIndexClass) -> SpecElement {
    SpecElement::Class {
        src: k,
        dst: match c.parts {
            Some(d) => d,
            None => Seq::empty(),
        },
        content: c.contents.map_values(|d: SpecDescribed| described_element(d)),
    }
}

/// The elements of the indexed classes from position `i` on that had a class entry, in order.
pub open spec fn index_elements(map: Seq<(Seq<u8>, SpecIndexClass)>, i: int) -> Seq<SpecElement>
    decreases map.len() - i,
{
    if i >= map.len() || i < 0 {
        Seq::empty()
    } else if map[i].1.parts is Some {
        seq![class_element(map[i].0, map[i].1)] + index_elements(map, i + 1)
    } else {
        index_elements(map, i + 1)
    }
}

/// The field or method kind of an indexed entry.
#[derive(Debug, Clone, Copy)]
enum DescribedKind {
    Field,
    Method,
}

/// A field or method of an indexed class.
#[derive(Debug)]
struct Described {
    kind: DescribedKind,
    desc_a: Vec<u8>,
    name_a: Vec<u8>,
    dst_names: NameList,
}

impl Described {
    spec fn view(&self) -> SpecDescribed {
        SpecDescribed {
            is_method: self.kind is Method,
            desc: self.desc_a@,
            name: self.name_a@,
            dst: names_of(self.dst_names),
        }
    }
}

/// An indexed class: its destination names once its class entry was read, and its fields and
/// methods.
#[derive(Debug)]
struct IndexClass {
    parts: Option<NameList>,
    contents: Vec<Described>,
}

/// The abstract fields and methods.
spec fn described_view(s: Seq<Described>) -> Seq<SpecDescribed> {
    s.map_values(|d: Described| d.view())
}

impl IndexClass {
    spec fn view(&self) -> SpecIndexClass {
        SpecIndexClass {
            parts: match self.parts {
                Some(l) => Some(names_of(l)),
                None => None,
            },
            contents: described_view(self.contents@),
        }
    }
}

/// The abstract classes.
spec fn classes_view(s: Seq<(Seq<u8>, IndexClass)>) -> Seq<(Seq<u8>, SpecIndexClass)> {
    crate::bytemap::map_entries(s, |c: IndexClass| c.view())
}

/// A list holding the given names, in order.
fn name_list(names: Vec<Vec<u8>>) -> (r: NameList)
    ensures
        names_of(r) == names_view(names@),
{
    let mut out = names_new();
    let mut i: usize = 0;
    let mut names = names;
    let ghost all = names_view(names@);
    assert(all.take(0) =~= Seq::<Seq<u8>>::empty());
    while i < names.len()
        invariant
            i <= names@.len(),
            all == names_view(names@),
            names_of(out) == all.take(i as int),
        decreases names@.len() - i,
    {
        let n = crate::strs::to_vec(names[i].as_slice());
        names_push(&mut out, n);
        assert(all.take(i + 1) =~= all.take(i as int).push(names@[i as int]@));
        i = i + 1;
    }
    assert(all.take(i as int) =~= all);
    out
}

/// Index of classes and their contents of a Tiny V1 mapping file: the flat entries filed under
/// their classes, by source name.
#[derive(Debug)]
pub struct Index {
    classes: ByteMap<IndexClass>,
    namespace_a: Vec<u8>,
    dst_namespaces: Vec<Vec<u8>>,
}

impl Index {
    /// The indexed classes, by source name, in key order.
    pub closed spec fn spec_classes(&self) -> Seq<(Seq<u8>, SpecIndexClass)> {
        classes_view(self.classes.entries())
    }

    /// The keys are in order.
    pub closed spec fn wf(&self) -> bool {
        self.classes.wf()
    }

    /// The source namespace.
    pub closed spec fn spec_src(&self) -> Seq<u8> {
        self.namespace_a@
    }

    /// The destination namespaces.
    pub closed spec fn spec_dst(&self) -> Seq<Seq<u8>> {
        names_view(self.dst_namespaces@)
    }
}

/// The abstract cursor.
spec fn cursor_view(o: Option<(Vec<u8>, IndexClass)>) -> Option<(Seq<u8>, SpecIndexClass)> {
    match o {
        Some((k, c)) => Some((k@, c.view())),
        None => None,
    }
}

/// Sets the value at position `i`, by the key that stands there.
proof fn lemma_set_value(s: Seq<(Seq<u8>, IndexClass)>, i: int, c: IndexClass)
    requires
        crate::bytemap::keys_sorted(s),
        0 <= i < s.len(),
    ensures
        classes_view(s.update(i, (s[i].0, c))) == sorted_insert(classes_view(s), s[i].0, c.view()),
        crate::bytemap::keys_sorted(classes_view(s)),
{
    crate::bytemap::lemma_update_sorted(s, i, c);
    crate::bytemap::lemma_map_insert(s, |x: IndexClass| x.view(), s[i].0, c);
}

/// Changes the class at position `i` with `f`: takes it out, lets `f` change it, puts it back.
fn add_content(classes: &mut ByteMap<IndexClass>, i: usize, d: Described)
    requires
        old(classes).wf(),
        i < old(classes).entries().len(),
    ensures
        final(classes).wf(),
        classes_view(final(classes).entries()) == sorted_insert(
            classes_view(old(classes).entries()),
            old(classes).entries()[i as int].0,
            SpecIndexClass {
                parts: old(classes).entries()[i as int].1.view().parts,
                contents: old(classes).entries()[i as int].1.view().contents.push(d.view()),
            },
        ),
{
    let ghost s0 = classes.entries();
    let placeholder = IndexClass { parts: None, contents: Vec::new() };
    let ghost ph = placeholder;
    let mut c = classes.replace_at(i, placeholder);
    let ghost before = c.contents@;
    c.contents.push(d);
    assert(described_view(c.contents@) =~= described_view(before).push(d.view()));
    proof {
        crate::bytemap::lemma_update_sorted(s0, i as int, ph);
    }
    let _ = classes.replace_at(i, c);
    proof {
        assert(classes.entries() =~= s0.update(i as int, (s0[i as int].0, c)));
        lemma_set_value(s0, i as int, c);
    }
}

/// Sets the destination names of the class at position `i`.
fn set_parts(classes: &mut ByteMap<IndexClass>, i: usize, parts: NameList)
    requires
        old(classes).wf(),
        i < old(classes).entries().len(),
    ensures
        final(classes).wf(),
        classes_view(final(classes).entries()) == sorted_insert(
            classes_view(old(classes).entries()),
            old(classes).entries()[i as int].0,
            SpecIndexClass { parts: Some(names_of(parts)), contents: old(classes).entries()[i as int].1.view().contents },
        ),
{
    let ghost s0 = classes.entries();
    let placeholder = IndexClass { parts: None, contents: Vec::new() };
    let ghost ph = placeholder;
    let mut c = classes.replace_at(i, placeholder);
    c.parts = Some(parts);
    proof {
        crate::bytemap::lemma_update_sorted(s0, i as int, ph);
    }
    let _ = classes.replace_at(i, c);
    proof {
        assert(classes.entries() =~= s0.update(i as int, (s0[i as int].0, c)));
        lemma_set_value(s0, i as int, c);
    }
}

/// Inserts a class, by its source name.
fn file_class(classes: &mut ByteMap<IndexClass>, k: Vec<u8>, c: IndexClass)
    requires
        old(classes).wf(),
    ensures
        final(classes).wf(),
        classes_view(final(classes).entries()) == sorted_insert(classes_view(old(classes).entries()), k@, c.view()),
{
    proof {
        crate::bytemap::lemma_map_insert(classes.entries(), |x: IndexClass| x.view(), k@, c);
    }
    classes.insert(k, c);
}

/// Files one entry, as `index_step` describes.
fn file_entry(classes: &mut ByteMap<IndexClass>, cursor: &mut Option<(Vec<u8>, IndexClass)>, e: Entry)
    requires
        old(classes).wf(),
    ensures
        final(classes).wf(),
        (IndexState { map: classes_view(final(classes).entries()), cursor: cursor_view(*final(cursor)) })
            == index_step(IndexState { map: classes_view(old(classes).entries()), cursor: cursor_view(*old(cursor)) }, e.view()),
{
    let ghost m0 = classes.entries();
    match e {
        Entry::Class { name, dst } => {
            let parts = name_list(dst);
            proof {
                crate::bytemap::lemma_map_lookup_value(m0, |x: IndexClass| x.view(), name@);
            }
            match classes.find(name.as_slice()) {
                Some(i) => set_parts(classes, i, parts),
                None => {
                    let class = IndexClass { parts: Some(parts), contents: Vec::new() };
                    assert(described_view(class.contents@) =~= Seq::<SpecDescribed>::empty());
                    let old = cursor.take();
                    *cursor = Some((name, class));
                    match old {
                        Some((k, c)) => file_class(classes, k, c),
                        None => {},
                    }
                },
            }
        },
        Entry::Field { parent, desc, name, dst } => {
            let d = Described { kind: DescribedKind::Field, desc_a: desc, name_a: name, dst_names: name_list(dst) };
            file_member(classes, cursor, parent, d);
        },
        Entry::Method { parent, desc, name, dst } => {
            let d = Described { kind: DescribedKind::Method, desc_a: desc, name_a: name, dst_names: name_list(dst) };
            file_member(classes, cursor, parent, d);
        },
    }
}

/// Files a field or method under the class `parent`, as `file_described` describes.
fn file_member(classes: &mut ByteMap<IndexClass>, cursor: &mut Option<(Vec<u8>, IndexClass)>, parent: Vec<u8>, d: Described)
    requires
        old(classes).wf(),
    ensures
        final(classes).wf(),
        (IndexState { map: classes_view(final(classes).entries()), cursor: cursor_view(*final(cursor)) })
            == file_described(IndexState { map: classes_view(old(classes).entries()), cursor: cursor_view(*old(cursor)) }, parent@, d.view()),
{
    let ghost m0 = classes.entries();
    let in_cursor = match cursor {
        Some((k, _)) => eq_bytes(k.as_slice(), parent.as_slice()),
        None => false,
    };
    if in_cursor {
        match cursor.take() {
            Some((k, c)) => {
                let mut c = c;
                let ghost before = c.contents@;
                c.contents.push(d);
                assert(described_view(c.contents@) =~= described_view(before).push(d.view()));
                *cursor = Some((k, c));
            },
            None => {},
        }
    } else {
        proof {
            crate::bytemap::lemma_map_lookup_value(m0, |x: IndexClass| x.view(), parent@);
        }
        match classes.find(parent.as_slice()) {
            Some(i) => add_content(classes, i, d),
            None => {
                let c = IndexClass { parts: None, contents: vec![d] };
                assert(described_view(c.contents@) =~= seq![d.view()]);
                file_class(classes, parent, c);
            },
        }
    }
}

/// Copies of names.
fn copy_names(names: &[Vec<u8>]) -> (r: Vec<Vec<u8>>)
    ensures
        names_view(r@) == names_view(names@),
{
    let mut out: Vec<Vec<u8>> = Vec::new();
    let mut i: usize = 0;
    while i < names.len()
        invariant
            i <= names@.len(),
            names_view(out@) == names_view(names@).take(i as int),
        decreases names@.len() - i,
    {
        let ghost before = names_view(out@);
        let v = crate::strs::to_vec(names[i].as_slice());
        out.push(v);
        assert(names_view(out@) =~= before.push(names@[i as int]@));
        assert(names_view(names@).take(i + 1) =~= names_view(names@).take(i as int).push(names@[i as int]@));
        i = i + 1;
    }
    assert(names_view(names@).take(i as int) =~= names_view(names@));
    out
}

impl Index {
    /// Constructs the index of a Tiny V1 mapping file from its stream deserializer: files every
    /// entry up to the end of input, as `index_from` describes.
    pub fn from_stream(stream: &mut StreamDeserializer) -> (r: Result<Index, Error>)
        requires
            old(stream).wf(),
        ensures
            final(stream).wf(),
            match index_from(old(stream).pos(), index_start()) {
                Ok(st) => r matches Ok(ix) && {
                    &&& ix.wf()
                    &&& ix.spec_classes() == index_final(st)
                    &&& ix.spec_src() == old(stream).spec_src()
                    &&& ix.spec_dst() == old(stream).spec_dst()
                },
                Err(k) => r matches Err(e) && e.kind@ == k && e.line == final(stream).spec_line()
                    && e.col == final(stream).spec_col(),
            },
    {
        let mut classes: ByteMap<IndexClass> = ByteMap::new();
        let mut cursor: Option<(Vec<u8>, IndexClass)> = None;
        let ghost p0 = stream.pos();
        proof {
            assert(classes_view(classes.entries()) =~= Seq::<(Seq<u8>, SpecIndexClass)>::empty());
        }
        loop
            invariant
                stream.wf(),
                classes.wf(),
                p0 == old(stream).pos(),
                stream.spec_src() == old(stream).spec_src(),
                stream.spec_dst() == old(stream).spec_dst(),
                index_from(p0, index_start()) == index_from(
                    stream.pos(),
                    IndexState { map: classes_view(classes.entries()), cursor: cursor_view(cursor) },
                ),
            decreases measure(stream.pos()),
        {
            proof {
                lemma_next_entry_measure(stream.pos());
            }
            match stream.deserialize_next() {
                Err(e) => {
                    return Err(e);
                },
                Ok(None) => {
                    return Ok(Self::finish(classes, cursor, stream));
                },
                Ok(Some(e)) => {
                    file_entry(&mut classes, &mut cursor, e);
                },
            }
        }
    }

    /// The index once every entry is filed: the cursor's class filed too.
    fn finish(classes: ByteMap<IndexClass>, cursor: Option<(Vec<u8>, IndexClass)>, stream: &StreamDeserializer) -> (r: Index)
        requires
            classes.wf(),
        ensures
            r.wf(),
            r.spec_classes() == index_final(IndexState { map: classes_view(classes.entries()), cursor: cursor_view(cursor) }),
            r.spec_src() == stream.spec_src(),
            r.spec_dst() == stream.spec_dst(),
    {
        let mut classes = classes;
        match cursor {
            Some((k, c)) => file_class(&mut classes, k, c),
            None => {},
        }
        let namespace_a = crate::strs::to_vec(stream.src());
        let dsts = stream.dst();
        let mut dst_namespaces: Vec<Vec<u8>> = Vec::new();
        let mut i: usize = 0;
        while i < dsts.len()
            invariant
                i <= dsts@.len(),
                dsts@.len() == stream.spec_dst().len(),
                forall|j: int| 0 <= j < dsts@.len() ==> (#[trigger] dsts@[j])@ == stream.spec_dst()[j],
                names_view(dst_namespaces@) == stream.spec_dst().take(i as int),
            decreases dsts@.len() - i,
        {
            let ghost before = names_view(dst_namespaces@);
            let v = crate::strs::to_vec(dsts[i]);
            dst_namespaces.push(v);
            assert(names_view(dst_namespaces@) =~= before.push(dsts@[i as int]@));
            assert(stream.spec_dst().take(i + 1) =~= stream.spec_dst().take(i as int).push(stream.spec_dst()[i as int]));
            i = i + 1;
        }
        assert(stream.spec_dst().take(i as int) =~= stream.spec_dst());
        Index { classes, namespace_a, dst_namespaces }
    }

    /// Returns a deserializer over the indexed classes.
    pub fn as_deserializer(&self) -> (r: IndexDeserializer<'_>)
        ensures
            r.spec_index() == *self,
            r.spec_next() == 0,
    {
        IndexDeserializer { index: self, next: 0 }
    }

    /// The class at position `i` as an element.
    fn class_at(&self, i: usize) -> (r: Element)
        requires
            i < self.spec_classes().len(),
        ensures
            r.view() == class_element(self.spec_classes()[i as int].0, self.spec_classes()[i as int].1),
    {
        let (k, c) = self.classes.entry_at(i);
        let dst: Vec<Vec<u8>> = match &c.parts {
            Some(l) => copy_names(crate::names::names_as_slice(l)),
            None => {
                let v: Vec<Vec<u8>> = Vec::new();
                assert(names_view(v@) =~= Seq::<Seq<u8>>::empty());
                v
            },
        };
        let mut content: Vec<Element> = Vec::new();
        let mut j: usize = 0;
        let ghost cs = described_view(c.contents@);
        while j < c.contents.len()
            invariant
                j <= c.contents@.len(),
                cs == described_view(c.contents@),
                elements_view(content@) == cs.map_values(|d: SpecDescribed| described_element(d)).take(j as int),
            decreases c.contents@.len() - j,
        {
            let d = &c.contents[j];
            let names = copy_names(crate::names::names_as_slice(&d.dst_names));
            let e = match d.kind {
                DescribedKind::Field => Element::Field(
                    Field {
                        src: crate::strs::to_vec(d.name_a.as_slice()),
                        dst: names,
                        desc: Some(crate::strs::to_vec(d.desc_a.as_slice())),
                        dst_desc: None,
                        content: Vec::new(),
                    },
                ),
                DescribedKind::Method => Element::Method(
                    Method {
                        src: crate::strs::to_vec(d.name_a.as_slice()),
                        dst: names,
                        desc: Some(crate::strs::to_vec(d.desc_a.as_slice())),
                        dst_desc: None,
                        content: Vec::new(),
                    },
                ),
            };
            let ghost before = content@;
            proof {
                assert(elements_view(Seq::<Element>::empty()) == Seq::<SpecElement>::empty());
                assert(e.view() == described_element(cs[j as int]));
            }
            content.push(e);
            proof {
                crate::element::lemma_elements_view_push(before, e);
                assert(elements_view(content@) =~= cs.map_values(|d: SpecDescribed| described_element(d)).take(j + 1));
            }
            j = j + 1;
        }
        assert(cs.map_values(|d: SpecDescribed| described_element(d)).take(j as int) =~= cs.map_values(|d: SpecDescribed| described_element(d)));
        let e = Element::Class(Class { src: crate::strs::to_vec(k), dst, content });
        assert(self.spec_classes()[i as int] == (k@, c.view()));
        e
    }

    /// The class at position `i`, borrowed from the index.
    fn class_ref_at(&self, i: usize) -> (r: ClassRef<'_>)
        requires
            i < self.spec_classes().len(),
            self.spec_classes()[i as int].1.parts is Some,
        ensures
            r.view() == class_element(self.spec_classes()[i as int].0, self.spec_classes()[i as int].1),
    {
        let (k, c) = self.classes.entry_at(i);
        assert(self.spec_classes()[i as int] == (k@, c.view()));
        let dst: &[Vec<u8>] = match &c.parts {
            Some(l) => crate::names::names_as_slice(l),
            None => {
                let empty: &[Vec<u8>] = &[];
                empty
            },
        };
        let mut members: Vec<MemberRef<'_>> = Vec::new();
        let mut j: usize = 0;
        let ghost cs = described_view(c.contents@);
        while j < c.contents.len()
            invariant
                j <= c.contents@.len(),
                cs == described_view(c.contents@),
                members@.len() == j,
                members@.map_values(|m: MemberRef<'_>| m.view()) == cs.take(j as int),
            decreases c.contents@.len() - j,
        {
            let d = &c.contents[j];
            let is_method = match d.kind {
                DescribedKind::Field => false,
                DescribedKind::Method => true,
            };
            let m = MemberRef {
                is_method,
                desc: d.desc_a.as_slice(),
                src: d.name_a.as_slice(),
                dst: crate::names::names_as_slice(&d.dst_names),
            };
            assert(m.view() == cs[j as int]);
            let ghost before = members@;
            let ghost bv = before.map_values(|m: MemberRef<'_>| m.view());
            members.push(m);
            let ghost mv = members@.map_values(|m: MemberRef<'_>| m.view());
            assert forall|x: int| 0 <= x < j + 1 implies #[trigger] mv[x] == cs.take(j + 1)[x] by {
                if x < j {
                    assert(members@[x] == before[x]);
                    assert(bv[x] == cs.take(j as int)[x]);
                }
            }
            assert(mv =~= cs.take(j + 1));
            j = j + 1;
        }
        assert(cs.take(j as int) =~= cs);
        let r = ClassRef { src: k, dst, members };
        let ghost a = r.members@.map_values(|m: MemberRef<'_>| described_element(m.view()));
        let ghost v = r.members@.map_values(|m: MemberRef<'_>| m.view());
        let ghost b = cs.map_values(|d: SpecDescribed| described_element(d));
        assert forall|x: int| 0 <= x < cs.len() implies #[trigger] a[x] == b[x] by {
            assert(v[x] == cs[x]);
        }
        assert(a =~= b);
        assert(r.view() =~= class_element(k@, c.view()));
        r
    }

    /// The elements of the indexed classes that had a class entry, in key order.
    pub fn elements(&self) -> (r: Vec<Element>)
        ensures
            elements_view(r@) == index_elements(self.spec_classes(), 0),
    {
        let mut out: Vec<Element> = Vec::new();
        let n = self.classes.len();
        let mut i: usize = 0;
        proof {
            assert(elements_view(out@) + index_elements(self.spec_classes(), 0) =~= index_elements(self.spec_classes(), 0));
        }
        while i < n
            invariant
                i <= n,
                n == self.spec_classes().len(),
                elements_view(out@) + index_elements(self.spec_classes(), i as int) == index_elements(self.spec_classes(), 0),
            decreases n - i,
        {
            let (_, c) = self.classes.entry_at(i);
            assert(self.spec_classes()[i as int].1 == c.view());
            if c.parts.is_some() {
                let e = self.class_at(i);
                let ghost before = out@;
                out.push(e);
                proof {
                    crate::element::lemma_elements_view_push(before, e);
                    assert(elements_view(before) + (seq![e.view()] + index_elements(self.spec_classes(), i + 1)) =~= elements_view(out@) + index_elements(self.spec_classes(), i + 1));
                }
            }
            i = i + 1;
        }
        proof {
            assert(elements_view(out@) + Seq::<SpecElement>::empty() =~= elements_view(out@));
        }
        out
    }
}

/// A field or method of an indexed class, borrowed from the index.
#[derive(Debug)]
pub struct MemberRef<'a> {
    pub is_method: bool,
    pub desc: &'a [u8],
    pub src: &'a [u8],
    pub dst: &'a [Vec<u8>],
}

impl<'a> MemberRef<'a> {
    /// The member in the abstract.
    pub open spec fn view(&self) -> SpecDescribed {
        SpecDescribed { is_method: self.is_method, desc: self.desc@, name: self.src@, dst: names_view(self.dst@) }
    }
}

/// An indexed class with its fields and methods, borrowed from the index.
#[derive(Debug)]
pub struct ClassRef<'a> {
    pub src: &'a [u8],
    pub dst: &'a [Vec<u8>],
    pub members: Vec<MemberRef<'a>>,
}

impl<'a> ClassRef<'a> {
    /// The class as an element.
    pub open spec fn view(&self) -> SpecElement {
        SpecElement::Class {
            src: self.src@,
            dst: names_view(self.dst@),
            content: self.members@.map_values(|m: MemberRef<'a>| described_element(m.view())),
        }
    }
}

/// A deserializer over the classes of an index that had a class entry, in key order.
///
/// Returned by [`Index::as_deserializer`].
#[derive(Debug)]
pub struct IndexDeserializer<'a> {
    index: &'a Index,
    next: usize,
}

/// The source name of a class element.
pub open spec fn class_src(e: SpecElement) -> Seq<u8> {
    match e {
        SpecElement::Class { src, .. } => src,
        _ => Seq::empty(),
    }
}

impl Index {
    /// The classes of an index are filed in increasing order of their source names.
    pub proof fn lemma_sorted(&self)
        requires
            self.wf(),
        ensures
            crate::bytemap::keys_sorted(self.spec_classes()),
    {
        let e = self.classes.entries();
        let m = self.spec_classes();
        assert forall|i: int, j: int| 0 <= i < j < m.len() implies crate::bytemap::lex_lt(
            #[trigger] m[i].0,
            #[trigger] m[j].0,
        ) by {
            assert(m[i].0 == e[i].0);
            assert(m[j].0 == e[j].0);
        }
    }
}

/// The elements from position `i` on are classes whose source names come from position `i` on.
proof fn lemma_index_elements_from(map: Seq<(Seq<u8>, SpecIndexClass)>, i: int)
    requires
        crate::bytemap::keys_sorted(map),
        0 <= i,
    ensures
        forall|a: int| 0 <= a < index_elements(map, i).len() ==> (#[trigger] index_elements(map, i)[a]) is Class
            && i < map.len() && (class_src(index_elements(map, i)[a]) == map[i].0
            || crate::bytemap::lex_lt(map[i].0, class_src(index_elements(map, i)[a]))),
        forall|a: int, b: int| 0 <= a < b < index_elements(map, i).len() ==> crate::bytemap::lex_lt(
            class_src(#[trigger] index_elements(map, i)[a]),
            class_src(#[trigger] index_elements(map, i)[b]),
        ),
    decreases map.len() - i,
{
    if i < map.len() {
        lemma_index_elements_from(map, i + 1);
        let rest = index_elements(map, i + 1);
        assert forall|a: int| 0 <= a < rest.len() implies crate::bytemap::lex_lt(map[i].0, class_src(#[trigger] rest[a])) by {
            assert(crate::bytemap::lex_lt(map[i].0, map[i + 1].0));
            if class_src(rest[a]) != map[i + 1].0 {
                crate::bytemap::lemma_lex_trans(map[i].0, map[i + 1].0, class_src(rest[a]));
            }
        }
        if map[i].1.parts is Some {
            let all = index_elements(map, i);
            let h = class_element(map[i].0, map[i].1);
            assert(all == seq![h] + rest);
            assert forall|a: int| 0 <= a < all.len() implies (#[trigger] all[a]) is Class && (class_src(all[a]) == map[i].0
                || crate::bytemap::lex_lt(map[i].0, class_src(all[a]))) by {
                if a > 0 {
                    assert(all[a] == rest[a - 1]);
                }
            }
            assert forall|a: int, b: int| 0 <= a < b < all.len() implies crate::bytemap::lex_lt(
                class_src(#[trigger] all[a]),
                class_src(#[trigger] all[b]),
            ) by {
                assert(all[b] == rest[b - 1]);
                if a > 0 {
                    assert(all[a] == rest[a - 1]);
                }
            }
        }
    }
}

/// The classes that an index hands out come in strictly increasing order of their source names.
pub proof fn lemma_index_order(ix: Index)
    requires
        ix.wf(),
    ensures
        forall|a: int, b: int| 0 <= a < b < index_elements(ix.spec_classes(), 0).len() ==> crate::bytemap::lex_lt(
            class_src(#[trigger] index_elements(ix.spec_classes(), 0)[a]),
            class_src(#[trigger] index_elements(ix.spec_classes(), 0)[b]),
        ),
{
    ix.lemma_sorted();
    lemma_index_elements_from(ix.spec_classes(), 0);
}

/// The first position from `i` on of a class that had a class entry, if any.
pub open spec fn next_class(map: Seq<(Seq<u8>, SpecIndexClass)>, i: int) -> Option<int>
    decreases map.len() - i,
{
    if i >= map.len() || i < 0 {
        None
    } else if map[i].1.parts is Some {
        Some(i)
    } else {
        next_class(map, i + 1)
    }
}

impl<'a> IndexDeserializer<'a> {
    /// The index read.
    pub closed spec fn spec_index(&self) -> Index {
        *self.index
    }

    /// The position of the next class to consider.
    pub closed spec fn spec_next(&self) -> usize {
        self.next
    }

    /// Returns the source namespace of the indexed mapping.
    pub fn src_namespace(&self) -> (r: &[u8])
        ensures
            r@ == self.spec_index().spec_src(),
    {
        self.index.namespace_a.as_slice()
    }

    /// Returns the destination namespaces of the indexed mapping.
    pub fn dst_namespaces(&self) -> (r: &[Vec<u8>])
        ensures
            names_view(r@) == self.spec_index().spec_dst(),
    {
        self.index.dst_namespaces.as_slice()
    }

    /// The next class that had a class entry, with its fields and methods; `None` once there are
    /// no more.
    pub fn deserialize_any(&mut self) -> (r: Result<Option<Element>, Error>)
        ensures
            final(self).spec_index() == old(self).spec_index(),
            match next_class(old(self).spec_index().spec_classes(), old(self).spec_next() as int) {
                Some(j) => r matches Ok(Some(e)) && e.view() == class_element(
                    old(self).spec_index().spec_classes()[j].0,
                    old(self).spec_index().spec_classes()[j].1,
                ) && final(self).spec_next() == j + 1,
                None => r matches Ok(None),
            },
    {
        let n = self.index.classes.len();
        let ghost m = self.index.spec_classes();
        while self.next < n
            invariant
                n == m.len(),
                m == self.index.spec_classes(),
                self.index == old(self).index,
                self.next <= n || self.next == old(self).next,
                next_class(m, old(self).next as int) == next_class(m, self.next as int),
            decreases n - self.next,
        {
            let i = self.next;
            let (_, c) = self.index.classes.entry_at(i);
            assert(m[i as int].1 == c.view());
            if c.parts.is_some() {
                let e = self.index.class_at(i);
                self.next = i + 1;
                return Ok(Some(e));
            }
            self.next = i + 1;
        }
        Ok(None)
    }
    /// The next class that had a class entry, with its fields and methods, borrowed from the
    /// index; `None` once there are no more. It moves on as `deserialize_any` does.
    pub fn deserialize_any_borrowed(&mut self) -> (r: Option<ClassRef<'a>>)
        ensures
            final(self).spec_index() == old(self).spec_index(),
            match next_class(old(self).spec_index().spec_classes(), old(self).spec_next() as int) {
                Some(j) => r matches Some(c) && c.view() == class_element(
                    old(self).spec_index().spec_classes()[j].0,
                    old(self).spec_index().spec_classes()[j].1,
                ) && final(self).spec_next() == j + 1,
                None => r is None,
            },
    {
        let ix: &'a Index = self.index;
        let n = ix.classes.len();
        let ghost m = ix.spec_classes();
        while self.next < n
            invariant
                n == m.len(),
                m == ix.spec_classes(),
                self.index == old(self).index,
                ix == old(self).index,
                self.next <= n || self.next == old(self).next,
                next_class(m, old(self).next as int) == next_class(m, self.next as int),
            decreases n - self.next,
        {
            let i = self.next;
            let (_, c) = ix.classes.entry_at(i);
            assert(m[i as int].1 == c.view());
            if c.parts.is_some() {
                let e = ix.class_ref_at(i);
                self.next = i + 1;
                return Some(e);
            }
            self.next = i + 1;
        }
        None
    }
}

/// Deserializes every class of a Tiny V1 mapping through its index: the classes that had a class
/// entry, in key order, with the fields and methods filed under them.
pub fn from_slice_indexed(slice: &[u8]) -> (r: Result<Vec<Element>, Error>)
    requires
        slice@.len() < usize::MAX,
    ensures
        ({
            let (h, p) = header(start_pos(slice@));
            match h {
                Err(k) => r matches Err(e) && e.kind@ == k && e.line == 0 && e.col == 0,
                Ok(_) => match index_from(p, index_start()) {
                    Ok(st) => r matches Ok(v) && elements_view(v@) == index_elements(index_final(st), 0),
                    Err(k) => r matches Err(e) && e.kind@ == k,
                },
            }
        }),
{
    let mut stream = match StreamDeserializer::from_slice(slice) {
        Err(e) => {
            return Err(e);
        },
        Ok(s) => s,
    };
    match Index::from_stream(&mut stream) {
        Err(e) => Err(e),
        Ok(ix) => Ok(ix.elements()),
    }
}

/// A field or method entry as an element, without content.
pub open spec fn member_element(e: SpecEntry) -> SpecElement {
    match e {
        SpecEntry::Method { desc, name, dst, .. } => SpecElement::Method {
            src: name,
            dst,
            desc: Some(desc),
            dst_desc: None,
            content: Seq::empty(),
        },
        SpecEntry::Field { desc, name, dst, .. } => SpecElement::Field {
            src: name,
            dst,
            desc: Some(desc),
            dst_desc: None,
            content: Seq::empty(),
        },
        SpecEntry::Class { name, dst } => SpecElement::Class { src: name, dst, content: Seq::empty() },
    }
}

/// The class a field or method entry names.
pub open spec fn entry_parent(e: SpecEntry) -> Seq<u8> {
    match e {
        SpecEntry::Field { parent, .. } => parent,
        SpecEntry::Method { parent, .. } => parent,
        SpecEntry::Class { name, .. } => name,
    }
}

/// The content of class `parent` from position `p`: the fields and methods that name it, up to
/// the next class entry, which is handed back, or the end of input.
pub open spec fn pt_content(p: Pos, parent: Seq<u8>) -> (Result<(Seq<SpecElement>, Option<(Seq<u8>, Seq<Seq<u8>>)>), SpecErrorKind>, Pos)
    decreases measure(p),
{
    let (r, p1) = next_entry(p);
    match r {
        Err(e) => (Err(e), p1),
        Ok(None) => (Ok((Seq::empty(), None)), p1),
        Ok(Some(SpecEntry::Class { name, dst })) => (Ok((Seq::empty(), Some((name, dst)))), p1),
        Ok(Some(e)) => if measure(p1) < measure(p) {
            let (rest, p2) = pt_content(p1, parent);
            match rest {
                Err(x) => (Err(x), p2),
                Ok((cs, next)) => if entry_parent(e) == parent {
                    (Ok((seq![member_element(e)] + cs, next)), p2)
                } else {
                    (Ok((cs, next)), p2)
                },
            }
        } else {
            (Ok((Seq::empty(), None)), p1)
        },
    }
}

/// The next class entry from position `p`, other entries passed over.
pub open spec fn pt_seek(p: Pos) -> (Result<Option<(Seq<u8>, Seq<Seq<u8>>)>, SpecErrorKind>, Pos)
    decreases measure(p),
{
    let (r, p1) = next_entry(p);
    match r {
        Err(e) => (Err(e), p1),
        Ok(None) => (Ok(None), p1),
        Ok(Some(SpecEntry::Class { name, dst })) => (Ok(Some((name, dst))), p1),
        Ok(Some(_)) => if measure(p1) < measure(p) {
            pt_seek(p1)
        } else {
            (Ok(None), p1)
        },
    }
}

/// Where a pseudo-tree deserializer stands: the reader's position, a class entry read ahead,
/// and whether the classes have ended.
pub ghost struct PtState {
    pub pos: Pos,
    pub buf: Option<(Seq<u8>, Seq<Seq<u8>>)>,
    pub aborted: bool,
}

/// The next class with its content, and the state after it.
pub open spec fn pt_step(s: PtState) -> (Result<Option<SpecElement>, SpecErrorKind>, PtState) {
    if s.aborted {
        (Ok(None), s)
    } else {
        let (c, p1) = match s.buf {
            Some(b) => (Ok(Some(b)), s.pos),
            None => pt_seek(s.pos),
        };
        match c {
            Err(e) => (Err(e), PtState { pos: p1, buf: None, aborted: false }),
            Ok(None) => (Ok(None), PtState { pos: p1, buf: None, aborted: true }),
            Ok(Some((name, dst))) => {
                let (r, p2) = pt_content(p1, name);
                match r {
                    Err(e) => (Err(e), PtState { pos: p2, buf: None, aborted: false }),
                    Ok((cs, next)) => (
                        Ok(Some(SpecElement::Class { src: name, dst, content: cs })),
                        PtState { pos: p2, buf: next, aborted: false },
                    ),
                }
            },
        }
    }
}

pub proof fn lemma_pt_content_measure(p: Pos, parent: Seq<u8>)
    ensures
        measure(pt_content(p, parent).1) <= measure(p),
        pt_content(p, parent).0 matches Ok((_, Some(_))) ==> measure(pt_content(p, parent).1) < measure(p),
    decreases measure(p),
{
    lemma_next_entry_measure(p);
    let (r, p1) = next_entry(p);
    if let Ok(Some(e)) = r {
        if !(e is Class) && measure(p1) < measure(p) {
            lemma_pt_content_measure(p1, parent);
        }
    }
}

pub proof fn lemma_pt_seek_measure(p: Pos)
    ensures
        measure(pt_seek(p).1) <= measure(p),
        pt_seek(p).0 matches Ok(Some(_)) ==> measure(pt_seek(p).1) < measure(p),
    decreases measure(p),
{
    lemma_next_entry_measure(p);
    let (r, p1) = next_entry(p);
    if let Ok(Some(e)) = r {
        if !(e is Class) && measure(p1) < measure(p) {
            lemma_pt_seek_measure(p1);
        }
    }
}

/// A class from the pseudo-tree steps from state `s` on, until none follows or an error.
pub open spec fn pt_all(s: PtState) -> Result<Seq<SpecElement>, SpecErrorKind>
    decreases measure(s.pos), if s.buf is Some {
        1nat
    } else {
        0nat
    },
{
    let (r, s2) = pt_step(s);
    match r {
        Err(e) => Err(e),
        Ok(None) => Ok(Seq::empty()),
        Ok(Some(c)) => if measure(s2.pos) < measure(s.pos) || (measure(s2.pos) == measure(s.pos) && s.buf is Some && s2.buf is None) {
            match pt_all(s2) {
                Ok(cs) => Ok(seq![c] + cs),
                Err(e) => Err(e),
            }
        } else {
            Ok(seq![c])
        },
    }
}

/// `es` before the elements of `r`, if `r` succeeded.
pub open spec fn prepend_content(
    es: Seq<SpecElement>,
    r: Result<(Seq<SpecElement>, Option<(Seq<u8>, Seq<Seq<u8>>)>), SpecErrorKind>,
) -> Result<(Seq<SpecElement>, Option<(Seq<u8>, Seq<Seq<u8>>)>), SpecErrorKind> {
    match r {
        Ok((cs, next)) => Ok((es + cs, next)),
        Err(e) => Err(e),
    }
}

/// A class entry read ahead, in the abstract.
pub open spec fn buf_view(b: Option<(Vec<u8>, Vec<Vec<u8>>)>) -> Option<(Seq<u8>, Seq<Seq<u8>>)> {
    match b {
        Some((n, d)) => Some((n@, names_view(d@))),
        None => None,
    }
}

/// Reads the content of class `parent`, as `pt_content` describes; a class entry that ends it is
/// put in `buf`.
fn read_content(stream: &mut StreamDeserializer, parent: &[u8], buf: &mut Option<(Vec<u8>, Vec<Vec<u8>>)>) -> (r: Result<Vec<Element>, Error>)
    requires
        old(stream).wf(),
        *old(buf) is None,
    ensures
        final(stream).wf(),
        final(stream).spec_src() == old(stream).spec_src(),
        final(stream).spec_dst() == old(stream).spec_dst(),
        final(stream).pos() == pt_content(old(stream).pos(), parent@).1,
        match pt_content(old(stream).pos(), parent@).0 {
            Ok((cs, next)) => r matches Ok(v) && elements_view(v@) == cs && buf_view(*final(buf)) == next,
            Err(k) => r matches Err(e) && e.kind@ == k && e.line == final(stream).spec_line()
                && e.col == final(stream).spec_col() && *final(buf) is None,
        },
{
    let mut out: Vec<Element> = Vec::new();
    let ghost p0 = stream.pos();
    proof {
        assert(elements_view(out@) == Seq::<SpecElement>::empty());
        if let Ok((cs, n)) = pt_content(p0, parent@).0 {
            assert(Seq::<SpecElement>::empty() + cs =~= cs);
        }
    }
    loop
        invariant
            stream.wf(),
            stream.spec_src() == old(stream).spec_src(),
            stream.spec_dst() == old(stream).spec_dst(),
            p0 == old(stream).pos(),
            *buf is None,
            pt_content(p0, parent@).0 == prepend_content(elements_view(out@), pt_content(stream.pos(), parent@).0),
            pt_content(p0, parent@).1 == pt_content(stream.pos(), parent@).1,
        decreases measure(stream.pos()),
    {
        proof {
            lemma_next_entry_measure(stream.pos());
        }
        match stream.deserialize_next() {
            Err(e) => {
                return Err(e);
            },
            Ok(None) => {
                proof {
                    assert(elements_view(out@) + Seq::<SpecElement>::empty() =~= elements_view(out@));
                }
                return Ok(out);
            },
            Ok(Some(Entry::Class { name, dst })) => {
                proof {
                    assert(elements_view(out@) + Seq::<SpecElement>::empty() =~= elements_view(out@));
                }
                *buf = Some((name, dst));
                return Ok(out);
            },
            Ok(Some(Entry::Field { parent: q, desc, name, dst })) => {
                if eq_bytes(q.as_slice(), parent) {
                    let e = Element::Field(Field { src: name, dst, desc: Some(desc), dst_desc: None, content: Vec::new() });
                    let ghost before = out@;
                    assert(elements_view(Seq::<Element>::empty()) == Seq::<SpecElement>::empty());
                    out.push(e);
                    proof {
                        crate::element::lemma_elements_view_push(before, e);
                        if let Ok((cs, n)) = pt_content(stream.pos(), parent@).0 {
                            assert(elements_view(before) + (seq![e.view()] + cs) =~= elements_view(out@) + cs);
                        }
                    }
                }
            },
            Ok(Some(Entry::Method { parent: q, desc, name, dst })) => {
                if eq_bytes(q.as_slice(), parent) {
                    let e = Element::Method(Method { src: name, dst, desc: Some(desc), dst_desc: None, content: Vec::new() });
                    let ghost before = out@;
                    assert(elements_view(Seq::<Element>::empty()) == Seq::<SpecElement>::empty());
                    out.push(e);
                    proof {
                        crate::element::lemma_elements_view_push(before, e);
                        if let Ok((cs, n)) = pt_content(stream.pos(), parent@).0 {
                            assert(elements_view(before) + (seq![e.view()] + cs) =~= elements_view(out@) + cs);
                        }
                    }
                }
            },
        }
    }
}

/// Reads up to the next class entry, as `pt_seek` describes.
fn seek_class(stream: &mut StreamDeserializer) -> (r: Result<Option<(Vec<u8>, Vec<Vec<u8>>)>, Error>)
    requires
        old(stream).wf(),
    ensures
        final(stream).wf(),
        final(stream).spec_src() == old(stream).spec_src(),
        final(stream).spec_dst() == old(stream).spec_dst(),
        final(stream).pos() == pt_seek(old(stream).pos()).1,
        match pt_seek(old(stream).pos()).0 {
            Ok(b) => r matches Ok(x) && buf_view(x) == b,
            Err(k) => r matches Err(e) && e.kind@ == k && e.line == final(stream).spec_line()
                && e.col == final(stream).spec_col(),
        },
{
    loop
        invariant
            stream.wf(),
            stream.spec_src() == old(stream).spec_src(),
            stream.spec_dst() == old(stream).spec_dst(),
            pt_seek(old(stream).pos()) == pt_seek(stream.pos()),
        decreases measure(stream.pos()),
    {
        proof {
            lemma_next_entry_measure(stream.pos());
        }
        match stream.deserialize_next() {
            Err(e) => {
                return Err(e);
            },
            Ok(None) => {
                return Ok(None);
            },
            Ok(Some(Entry::Class { name, dst })) => {
                return Ok(Some((name, dst)));
            },
            Ok(Some(_)) => {},
        }
    }
}

/// A Tiny V1 deserializer that reads the flat entries as trees: each class with the fields and
/// methods that follow it and name it, up to the next class.
///
/// Fields and methods that do not follow their class are missed.
#[derive(Debug)]
pub struct PseudoTreeDeserializer<'a, 'de> {
    stream: &'a mut StreamDeserializer<'de>,
    class_buf: Option<(Vec<u8>, Vec<Vec<u8>>)>,
    ns_src: Vec<u8>,
    ns_dst: NameList,
    aborted: bool,
}

impl<'a, 'de> PseudoTreeDeserializer<'a, 'de> {
    /// Where the deserializer stands.
    pub closed spec fn state(&self) -> PtState {
        PtState { pos: self.stream.pos(), buf: buf_view(self.class_buf), aborted: self.aborted }
    }

    /// The stream's consistency.
    pub closed spec fn wf(&self) -> bool {
        self.stream.wf()
    }

    /// The source namespace.
    pub closed spec fn spec_src(&self) -> Seq<u8> {
        self.ns_src@
    }

    /// The destination namespaces.
    pub closed spec fn spec_dst(&self) -> Seq<Seq<u8>> {
        names_of(self.ns_dst)
    }

    /// How many lines the stream's reader has taken.
    pub closed spec fn spec_line(&self) -> usize {
        self.stream.spec_line()
    }

    /// How many columns the stream's reader has taken on its current line.
    pub closed spec fn spec_col(&self) -> usize {
        self.stream.spec_col()
    }

    /// Creates a new deserializer over the given stream.
    pub fn new(stream: &'a mut StreamDeserializer<'de>) -> (r: Self)
        requires
            old(stream).wf(),
        ensures
            r.wf(),
            r.state() == (PtState { pos: old(stream).pos(), buf: None, aborted: false }),
            r.spec_src() == old(stream).spec_src(),
            r.spec_dst() == old(stream).spec_dst(),
    {
        let ns_src = crate::strs::to_vec(stream.src());
        let dsts = stream.dst();
        let mut names: Vec<Vec<u8>> = Vec::new();
        let mut i: usize = 0;
        while i < dsts.len()
            invariant
                i <= dsts@.len(),
                dsts@.len() == stream.spec_dst().len(),
                forall|j: int| 0 <= j < dsts@.len() ==> (#[trigger] dsts@[j])@ == stream.spec_dst()[j],
                names_view(names@) == stream.spec_dst().take(i as int),
            decreases dsts@.len() - i,
        {
            let ghost before = names_view(names@);
            let v = crate::strs::to_vec(dsts[i]);
            names.push(v);
            assert(names_view(names@) =~= before.push(dsts@[i as int]@));
            assert(stream.spec_dst().take(i + 1) =~= stream.spec_dst().take(i as int).push(stream.spec_dst()[i as int]));
            i = i + 1;
        }
        assert(stream.spec_dst().take(i as int) =~= stream.spec_dst());
        let ns_dst = name_list(names);
        PseudoTreeDeserializer { stream, class_buf: None, ns_src, ns_dst, aborted: false }
    }

    /// Returns the source namespace of this mapping.
    pub fn src_namespace(&self) -> (r: &[u8])
        ensures
            r@ == self.spec_src(),
    {
        self.ns_src.as_slice()
    }

    /// Returns the destination namespaces of this mapping.
    pub fn dst_namespaces(&self) -> (r: &[Vec<u8>])
        ensures
            names_view(r@) == self.spec_dst(),
    {
        crate::names::names_as_slice(&self.ns_dst)
    }

    /// Reads the next class with its fields and methods, as `pt_step` describes; `None` once
    /// the classes have ended, and from then on.
    pub fn deserialize_any(&mut self) -> (r: Result<Option<Element>, Error>)
        requires
            old(self).wf(),
        ensures
            final(self).wf(),
            final(self).spec_src() == old(self).spec_src(),
            final(self).spec_dst() == old(self).spec_dst(),
            final(self).state() == pt_step(old(self).state()).1,
            match pt_step(old(self).state()).0 {
                Ok(None) => r matches Ok(None),
                Ok(Some(e)) => r matches Ok(Some(x)) && x.view() == e,
                Err(k) => r matches Err(x) && x.kind@ == k && x.line == final(self).spec_line()
                    && x.col == final(self).spec_col(),
            },
    {
        if self.aborted {
            return Ok(None);
        }
        let (name, dst) = match self.class_buf.take() {
            Some(c) => c,
            None => match seek_class(self.stream) {
                Err(e) => {
                    return Err(e);
                },
                Ok(None) => {
                    self.aborted = true;
                    return Ok(None);
                },
                Ok(Some(c)) => c,
            },
        };
        let content = match read_content(self.stream, name.as_slice(), &mut self.class_buf) {
            Err(e) => {
                return Err(e);
            },
            Ok(v) => v,
        };
        Ok(Some(Element::Class(Class { src: name, dst, content })))
    }

    /// Reads every remaining class, as `pt_all` describes.
    pub fn deserialize_all(&mut self) -> (r: Result<Vec<Element>, Error>)
        requires
            old(self).wf(),
        ensures
            final(self).wf(),
            match pt_all(old(self).state()) {
                Ok(es) => r matches Ok(v) && elements_view(v@) == es,
                Err(k) => r matches Err(x) && x.kind@ == k && x.line == final(self).spec_line()
                    && x.col == final(self).spec_col(),
            },
    {
        let mut out: Vec<Element> = Vec::new();
        let ghost s0 = self.state();
        proof {
            assert(elements_view(out@) == Seq::<SpecElement>::empty());
            if let Ok(es) = pt_all(s0) {
                assert(Seq::<SpecElement>::empty() + es =~= es);
            }
        }
        loop
            invariant
                self.wf(),
                s0 == old(self).state(),
                pt_all(s0) == match pt_all(self.state()) {
                    Ok(es) => Ok(elements_view(out@) + es),
                    Err(e) => Err(e),
                },
            decreases measure(self.state().pos), if self.state().buf is Some {
                1nat
            } else {
                0nat
            },
        {
            let ghost s = self.state();
            proof {
                lemma_pt_step_measure(s);
            }
            match self.deserialize_any() {
                Err(e) => {
                    return Err(e);
                },
                Ok(None) => {
                    proof {
                        assert(elements_view(out@) + Seq::<SpecElement>::empty() =~= elements_view(out@));
                    }
                    return Ok(out);
                },
                Ok(Some(c)) => {
                    let ghost before = out@;
                    out.push(c);
                    proof {
                        crate::element::lemma_elements_view_push(before, c);
                        if let Ok(rest) = pt_all(self.state()) {
                            assert(elements_view(before) + (seq![c.view()] + rest) =~= elements_view(out@) + rest);
                        }
                    }
                },
            }
        }
    }
}

/// Each step that yields a class moves the deserializer forward.
pub proof fn lemma_pt_step_measure(s: PtState)
    ensures
        pt_step(s).0 matches Ok(Some(_)) ==> (measure(pt_step(s).1.pos) < measure(s.pos) || (
        measure(pt_step(s).1.pos) == measure(s.pos) && s.buf is Some && pt_step(s).1.buf is None)),
{
    if !s.aborted {
        lemma_pt_seek_measure(s.pos);
        let (c, p1) = match s.buf {
            Some(b) => (Ok(Some(b)), s.pos),
            None => pt_seek(s.pos),
        };
        if let Ok(Some((name, dst))) = c {
            lemma_pt_content_measure(p1, name);
        }
    }
}

/// The state after `n` pseudo-tree steps from `s`.
pub open spec fn pt_after(s: PtState, n: nat) -> PtState
    decreases n,
{
    if n == 0 {
        s
    } else {
        pt_after(pt_step(s).1, (n - 1) as nat)
    }
}

/// An ended reader stays ended: every later step gives nothing.
proof fn lemma_pt_ended(t: PtState, n: nat)
    requires
        t.aborted,
    ensures
        pt_after(t, n) == t,
        pt_step(pt_after(t, n)).0 == Ok::<Option<SpecElement>, SpecErrorKind>(None),
    decreases n,
{
    if n > 0 {
        lemma_pt_ended(t, (n - 1) as nat);
    }
}

/// Where the pseudo-tree reader reads the classes `es` without an error, successive steps give
/// them one by one, in order, and from then on nothing, at every later step.
pub proof fn lemma_pt_calls(s: PtState, es: Seq<SpecElement>)
    requires
        pt_all(s) == Ok::<Seq<SpecElement>, SpecErrorKind>(es),
    ensures
        forall|i: int| 0 <= i < es.len() ==> #[trigger] pt_step(pt_after(s, i as nat)).0
            == Ok::<Option<SpecElement>, SpecErrorKind>(Some(es[i])),
        forall|n: nat| n >= es.len() ==> #[trigger] pt_step(pt_after(s, n)).0 == Ok::<
            Option<SpecElement>,
            SpecErrorKind,
        >(None),
    decreases es.len(),
{
    lemma_pt_step_measure(s);
    let (r, s2) = pt_step(s);
    match r {
        Ok(None) => {
            assert(s2.aborted);
            assert(es =~= Seq::<SpecElement>::empty());
            assert forall|n: nat| n >= es.len() implies #[trigger] pt_step(pt_after(s, n)).0 == Ok::<
                Option<SpecElement>,
                SpecErrorKind,
            >(None) by {
                if n > 0 {
                    lemma_pt_ended(s2, (n - 1) as nat);
                }
            }
        },
        Ok(Some(c)) => {
            let rest = pt_all(s2)->Ok_0;
            assert(es == seq![c] + rest);
            lemma_pt_calls(s2, rest);
            assert forall|i: int| 0 <= i < es.len() implies #[trigger] pt_step(pt_after(s, i as nat)).0
                == Ok::<Option<SpecElement>, SpecErrorKind>(Some(es[i])) by {
                if i > 0 {
                    assert(pt_after(s, i as nat) == pt_after(s2, (i - 1) as nat));
                    assert(es[i] == rest[i - 1]);
                }
            }
            assert forall|n: nat| n >= es.len() implies #[trigger] pt_step(pt_after(s, n)).0 == Ok::<
                Option<SpecElement>,
                SpecErrorKind,
            >(None) by {
                assert(pt_after(s, n) == pt_after(s2, (n - 1) as nat));
            }
        },
        Err(_) => {},
    }
}

/// Deserializes every class of a Tiny V1 mapping as pseudo trees, without an index.
pub fn from_slice_fast(slice: &[u8]) -> (r: Result<Vec<Element>, Error>)
    requires
        slice@.len() < usize::MAX,
    ensures
        ({
            let (h, p) = header(start_pos(slice@));
            match h {
                Err(k) => r matches Err(e) && e.kind@ == k && e.line == 0 && e.col == 0,
                Ok(_) => match pt_all(PtState { pos: p, buf: None, aborted: false }) {
                    Ok(es) => r matches Ok(v) && elements_view(v@) == es,
                    Err(k) => r matches Err(e) && e.kind@ == k,
                },
            }
        }),
{
    let mut stream = match StreamDeserializer::from_slice(slice) {
        Err(e) => {
            return Err(e);
        },
        Ok(s) => s,
    };
    let mut d = PseudoTreeDeserializer::new(&mut stream);
    d.deserialize_all()
}

/// The text `v1\t`.
pub open spec fn header_magic() -> Seq<u8> {
    seq![0x76u8, 0x31u8, SEPARATOR]
}

/// A property line: `# ` and the key, then a space and the value when there is one.
pub open spec fn prop_line(k: Seq<u8>, v: Option<Seq<u8>>) -> Seq<u8> {
    prop_prefix() + k + match v {
        Some(x) => seq![0x20u8] + x,
        None => Seq::empty(),
    } + seq![0x0au8]
}

/// The property lines in order.
pub open spec fn props_text(ps: Seq<(Seq<u8>, Option<Seq<u8>>)>) -> Seq<u8>
    decreases ps.len(),
{
    if ps.len() == 0 {
        Seq::empty()
    } else {
        props_text(ps.drop_last()) + prop_line(ps.last().0, ps.last().1)
    }
}

/// The header: `v1`, the namespaces, then the property lines.
pub open spec fn header_text(src: Seq<u8>, dst: Seq<Seq<u8>>, props: Seq<(Seq<u8>, Option<Seq<u8>>)>) -> Seq<u8> {
    header_magic() + src + names_text(dst, false) + seq![0x0au8] + props_text(props)
}

/// The line of a class entry.
pub open spec fn class_line(src: Seq<u8>, dst: Seq<Seq<u8>>) -> Seq<u8> {
    kw_class() + seq![SEPARATOR] + src + names_text(dst, false) + seq![0x0au8]
}

/// The line of a field (`kw` is `FIELD`) or method (`kw` is `METHOD`) entry of class `parent`.
pub open spec fn member_line(kw: Seq<u8>, parent: Seq<u8>, desc: Seq<u8>, src: Seq<u8>, dst: Seq<Seq<u8>>) -> Seq<u8> {
    kw + seq![SEPARATOR] + parent + seq![SEPARATOR] + desc + seq![SEPARATOR] + src + names_text(dst, false)
        + seq![0x0au8]
}

/// Appends each name after a separator.
fn push_names(out: &mut Vec<u8>, names: &[Vec<u8>])
    ensures
        final(out)@ == old(out)@ + names_text(names_view(names@), false),
{
    let ghost ns = names_view(names@);
    let mut i: usize = 0;
    assert(ns.take(0) =~= Seq::<Seq<u8>>::empty());
    while i < names.len()
        invariant
            i <= names@.len(),
            ns == names_view(names@),
            ns.len() == names@.len(),
            out@ == old(out)@ + names_text(ns.take(i as int), false),
        decreases names@.len() - i,
    {
        assert(ns[i as int] == names@[i as int]@);
        out.push(SEPARATOR);
        crate::strs::push_all(out, names[i].as_slice());
        proof {
            let t = ns.take(i + 1);
            assert(t.drop_last() =~= ns.take(i as int));
            assert(t.last() == ns[i as int]);
        }
        i = i + 1;
    }
    assert(ns.take(i as int) =~= ns);
}

/// A Tiny V1 mapping file serializer: writes the header, then class entries.
#[derive(Debug)]
pub struct Serializer<'a> {
    pub writer: &'a mut Vec<u8>,
}

/// Serializer of the content of a class: writes its field and method entries.
#[derive(Debug)]
pub struct ContentSerializer<'a> {
    pub parent: Vec<u8>,
    pub writer: &'a mut Vec<u8>,
}

impl<'a> Serializer<'a> {
    /// Creates a new Tiny V1 serializer writing into `writer`: writes the header with the
    /// namespaces and the properties.
    pub fn new(writer: &'a mut Vec<u8>, src: &[u8], dst: &[Vec<u8>], props: &[(&[u8], Option<&[u8]>)]) -> (r: Result<Self, Error>)
        ensures
            r matches Ok(s) && {
                &&& s.writer@ == old(writer)@ + header_text(src@, names_view(dst@), crate::tiny2::props_arg(props@))
                &&& *final(s.writer) == *final(writer)
            },
    {
        let m: [u8; 3] = [0x76, 0x31, 0x09];
        assert(m@ == header_magic());
        crate::strs::push_all(writer, &m);
        crate::strs::push_all(writer, src);
        push_names(writer, dst);
        writer.push(0x0au8);
        let ghost head = writer@;
        let ghost ps = crate::tiny2::props_arg(props@);
        let pre: [u8; 2] = [0x23, 0x20];
        assert(pre@ == prop_prefix());
        let mut i: usize = 0;
        assert(ps.take(0) =~= Seq::<(Seq<u8>, Option<Seq<u8>>)>::empty());
        while i < props.len()
            invariant
                i <= props@.len(),
                ps == crate::tiny2::props_arg(props@),
                ps.len() == props@.len(),
                pre@ == prop_prefix(),
                writer@ == head + props_text(ps.take(i as int)),
            decreases props@.len() - i,
        {
            let (k, v) = props[i];
            assert(ps[i as int] == (k@, match v {
                Some(x) => Some(x@),
                None => None::<Seq<u8>>,
            }));
            crate::strs::push_all(writer, &pre);
            crate::strs::push_all(writer, k);
            match v {
                Some(x) => {
                    writer.push(0x20u8);
                    crate::strs::push_all(writer, x);
                },
                None => {},
            }
            writer.push(0x0au8);
            proof {
                let t = ps.take(i + 1);
                assert(t.drop_last() =~= ps.take(i as int));
                assert(t.last() == ps[i as int]);
                assert(writer@ =~= head + props_text(ps.take(i as int)) + prop_line(ps[i as int].0, ps[i as int].1));
            }
            i = i + 1;
        }
        assert(ps.take(i as int) =~= ps);
        Ok(Serializer { writer })
    }

    /// Comments are not written: nothing happens.
    pub fn serialize_comment(&mut self, value: &[u8]) -> (r: Result<(), Error>)
        ensures
            r is Ok,
            *final(self) == *old(self),
    {
        Ok(())
    }

    /// Writes a class entry; what is written to the returned serializer belongs to the class.
    pub fn serialize_class(&mut self, src: &[u8], dst: &[Vec<u8>]) -> (r: Result<ContentSerializer<'_>, Error>)
        ensures
            r matches Ok(c) && {
                &&& c.parent@ == src@
                &&& c.writer@ == old(self).writer@ + class_line(src@, names_view(dst@))
                &&& *final(self).writer == *final(c.writer)
                &&& *final(final(self).writer) == *final(old(self).writer)
            },
    {
        let kc: [u8; 5] = [0x43, 0x4c, 0x41, 0x53, 0x53];
        assert(kc@ == kw_class());
        crate::strs::push_all(self.writer, &kc);
        self.writer.push(SEPARATOR);
        crate::strs::push_all(self.writer, src);
        push_names(self.writer, dst);
        self.writer.push(0x0au8);
        assert(self.writer@ =~= old(self).writer@ + class_line(src@, names_view(dst@)));
        Ok(ContentSerializer { parent: crate::strs::to_vec(src), writer: &mut *self.writer })
    }

    /// Fields have no place at the top level.
    pub fn serialize_field(&mut self, src: &[u8], desc: Option<&[u8]>, dst: &[Vec<u8>], dst_desc: Option<&[Vec<u8>]>) -> (r: Result<Impossible, Error>)
        ensures
            r matches Err(e) && e.line == 0 && e.col == 0 && e.kind@ == SpecErrorKind::Unsupported("field"),
            *final(self) == *old(self),
    {
        Err(Error::new(ErrorKind::Unsupported("field")))
    }

    /// Methods have no place at the top level.
    pub fn serialize_method(&mut self, src: &[u8], desc: Option<&[u8]>, dst: &[Vec<u8>], dst_desc: Option<&[Vec<u8>]>) -> (r: Result<Impossible, Error>)
        ensures
            r matches Err(e) && e.line == 0 && e.col == 0 && e.kind@ == SpecErrorKind::Unsupported("method"),
            *final(self) == *old(self),
    {
        Err(Error::new(ErrorKind::Unsupported("method")))
    }

    /// Method arguments are not written: they are skipped with their content.
    pub fn serialize_method_arg(&mut self, src: Option<&[u8]>, dst: Option<&[Vec<u8>]>, pos: Option<usize>, lv_index: Option<usize>) -> (r: Result<Skip, Error>)
        ensures
            r is Ok,
            *final(self) == *old(self),
    {
        Ok(Skip::new())
    }

    /// Method variables are not written: they are skipped with their content.
    pub fn serialize_method_var(
        &mut self,
        src: Option<&[u8]>,
        dst: Option<&[Vec<u8>]>,
        lv_index: Option<usize>,
        lvt_row_index: Option<usize>,
        op_idx: Option<(usize, Option<usize>)>,
    ) -> (r: Result<Skip, Error>)
        ensures
            r is Ok,
            *final(self) == *old(self),
    {
        Ok(Skip::new())
    }
}

impl<'a> ContentSerializer<'a> {
    /// Comments are not written: nothing happens.
    pub fn serialize_comment(&mut self, value: &[u8]) -> (r: Result<(), Error>)
        ensures
            r is Ok,
            *final(self) == *old(self),
    {
        Ok(())
    }

    /// Classes have no place inside a class.
    pub fn serialize_class(&mut self, src: &[u8], dst: &[Vec<u8>]) -> (r: Result<Impossible, Error>)
        ensures
            r matches Err(e) && e.line == 0 && e.col == 0 && e.kind@ == SpecErrorKind::Unsupported("class"),
            *final(self) == *old(self),
    {
        Err(Error::new(ErrorKind::Unsupported("class")))
    }

    /// Writes a member entry with keyword `kw`; the descriptor must be present.
    fn write_member(&mut self, kw: &[u8], src: &[u8], desc: &[u8], dst: &[Vec<u8>])
        ensures
            final(self).parent == old(self).parent,
            final(self).writer@ == old(self).writer@ + member_line(kw@, old(self).parent@, desc@, src@, names_view(dst@)),
            *final(final(self).writer) == *final(old(self).writer),
    {
        crate::strs::push_all(self.writer, kw);
        self.writer.push(SEPARATOR);
        crate::strs::push_all(self.writer, self.parent.as_slice());
        self.writer.push(SEPARATOR);
        crate::strs::push_all(self.writer, desc);
        self.writer.push(SEPARATOR);
        crate::strs::push_all(self.writer, src);
        push_names(self.writer, dst);
        self.writer.push(0x0au8);
        assert(self.writer@ =~= old(self).writer@ + member_line(kw@, old(self).parent@, desc@, src@, names_view(dst@)));
    }

    /// Writes a field entry of the class; a field needs a descriptor. Its content is skipped.
    pub fn serialize_field(&mut self, src: &[u8], desc: Option<&[u8]>, dst: &[Vec<u8>], dst_desc: Option<&[Vec<u8>]>) -> (r: Result<Skip, Error>)
        ensures
            final(self).parent == old(self).parent,
            *final(final(self).writer) == *final(old(self).writer),
            match desc {
                None => r matches Err(e) && e.line == 0 && e.col == 0 && e.kind@ == SpecErrorKind::MissingToWrite("field-desc-a")
                    && final(self).writer@ == old(self).writer@,
                Some(d) => r is Ok && final(self).writer@ == old(self).writer@ + member_line(kw_field(), old(self).parent@, d@, src@, names_view(dst@)),
            },
    {
        let d = match desc {
            None => {
                return Err(Error::new(ErrorKind::MissingToWrite("field-desc-a")));
            },
            Some(d) => d,
        };
        let kf: [u8; 5] = [0x46, 0x49, 0x45, 0x4c, 0x44];
        assert(kf@ == kw_field());
        self.write_member(&kf, src, d, dst);
        Ok(Skip::new())
    }

    /// Writes a method entry of the class; a method needs a descriptor. Its content is skipped.
    pub fn serialize_method(&mut self, src: &[u8], desc: Option<&[u8]>, dst: &[Vec<u8>], dst_desc: Option<&[Vec<u8>]>) -> (r: Result<Skip, Error>)
        ensures
            final(self).parent == old(self).parent,
            *final(final(self).writer) == *final(old(self).writer),
            match desc {
                None => r matches Err(e) && e.line == 0 && e.col == 0 && e.kind@ == SpecErrorKind::MissingToWrite("method-desc-a")
                    && final(self).writer@ == old(self).writer@,
                Some(d) => r is Ok && final(self).writer@ == old(self).writer@ + member_line(kw_method(), old(self).parent@, d@, src@, names_view(dst@)),
            },
    {
        let d = match desc {
            None => {
                return Err(Error::new(ErrorKind::MissingToWrite("method-desc-a")));
            },
            Some(d) => d,
        };
        let km: [u8; 6] = [0x4d, 0x45, 0x54, 0x48, 0x4f, 0x44];
        assert(km@ == kw_method());
        self.write_member(&km, src, d, dst);
        Ok(Skip::new())
    }

    /// Method arguments are not written: they are skipped with their content.
    pub fn serialize_method_arg(&mut self, src: Option<&[u8]>, dst: Option<&[Vec<u8>]>, pos: Option<usize>, lv_index: Option<usize>) -> (r: Result<Skip, Error>)
        ensures
            r is Ok,
            *final(self) == *old(self),
    {
        Ok(Skip::new())
    }

    /// Method variables are not written: they are skipped with their content.
    pub fn serialize_method_var(
        &mut self,
        src: Option<&[u8]>,
        dst: Option<&[Vec<u8>]>,
        lv_index: Option<usize>,
        lvt_row_index: Option<usize>,
        op_idx: Option<(usize, Option<usize>)>,
    ) -> (r: Result<Skip, Error>)
        ensures
            r is Ok,
            *final(self) == *old(self),
    {
        Ok(Skip::new())
    }
}

/// What serializing `e` inside class `parent` writes, and its error, if any.
pub open spec fn member_emit(e: SpecElement, parent: Seq<u8>) -> (Seq<u8>, Option<SpecErrorKind>) {
    match e {
        SpecElement::Class { .. } => (Seq::empty(), Some(SpecErrorKind::Unsupported("class"))),
        SpecElement::Field { src, dst, desc, .. } => match desc {
            None => (Seq::empty(), Some(SpecErrorKind::MissingToWrite("field-desc-a"))),
            Some(d) => (member_line(kw_field(), parent, d, src, dst), None),
        },
        SpecElement::Method { src, dst, desc, .. } => match desc {
            None => (Seq::empty(), Some(SpecErrorKind::MissingToWrite("method-desc-a"))),
            Some(d) => (member_line(kw_method(), parent, d, src, dst), None),
        },
        _ => (Seq::empty(), None),
    }
}

/// What serializing `es` one after another inside class `parent` writes, up to the first error.
pub open spec fn members_emit(es: Seq<SpecElement>, parent: Seq<u8>) -> (Seq<u8>, Option<SpecErrorKind>)
    decreases es.len(),
{
    if es.len() == 0 {
        (Seq::empty(), None)
    } else {
        let (b, err) = member_emit(es[0], parent);
        match err {
            Some(k) => (b, Some(k)),
            None => {
                let (b2, err2) = members_emit(es.drop_first(), parent);
                (b + b2, err2)
            },
        }
    }
}

/// What serializing `e` at the top level writes, and its error, if any.
pub open spec fn top_emit(e: SpecElement) -> (Seq<u8>, Option<SpecErrorKind>) {
    match e {
        SpecElement::Class { src, dst, content } => {
            let (b, err) = members_emit(content, src);
            (class_line(src, dst) + b, err)
        },
        SpecElement::Field { .. } => (Seq::empty(), Some(SpecErrorKind::Unsupported("field"))),
        SpecElement::Method { .. } => (Seq::empty(), Some(SpecErrorKind::Unsupported("method"))),
        _ => (Seq::empty(), None),
    }
}

/// What serializing `es` one after another at the top level writes, up to the first error.
pub open spec fn tops_emit(es: Seq<SpecElement>) -> (Seq<u8>, Option<SpecErrorKind>)
    decreases es.len(),
{
    if es.len() == 0 {
        (Seq::empty(), None)
    } else {
        let (b, err) = top_emit(es[0]);
        match err {
            Some(k) => (b, Some(k)),
            None => {
                let (b2, err2) = tops_emit(es.drop_first());
                (b + b2, err2)
            },
        }
    }
}

/// Serializing from index `i` on: the element at `i` first, then those after it.
proof fn lemma_members_step(es: Seq<SpecElement>, i: int, parent: Seq<u8>)
    requires
        0 <= i < es.len(),
    ensures
        members_emit(es.subrange(i, es.len() as int), parent) == ({
            let (b, err) = member_emit(es[i], parent);
            match err {
                Some(k) => (b, Some(k)),
                None => {
                    let (b2, err2) = members_emit(es.subrange(i + 1, es.len() as int), parent);
                    (b + b2, err2)
                },
            }
        }),
{
    let t = es.subrange(i, es.len() as int);
    assert(t[0] == es[i]);
    assert(t.drop_first() =~= es.subrange(i + 1, es.len() as int));
}

/// Serializing from index `i` on: the element at `i` first, then those after it.
proof fn lemma_tops_step(es: Seq<SpecElement>, i: int)
    requires
        0 <= i < es.len(),
    ensures
        tops_emit(es.subrange(i, es.len() as int)) == ({
            let (b, err) = top_emit(es[i]);
            match err {
                Some(k) => (b, Some(k)),
                None => {
                    let (b2, err2) = tops_emit(es.subrange(i + 1, es.len() as int));
                    (b + b2, err2)
                },
            }
        }),
{
    let t = es.subrange(i, es.len() as int);
    assert(t[0] == es[i]);
    assert(t.drop_first() =~= es.subrange(i + 1, es.len() as int));
}

impl<'a> ContentSerializer<'a> {
    /// Serializes an element inside the class: what `member_emit` describes.
    pub fn serialize_element(&mut self, e: &Element) -> (r: Result<(), Error>)
        ensures
            final(self).parent == old(self).parent,
            *final(final(self).writer) == *final(old(self).writer),
            final(self).writer@ == old(self).writer@ + member_emit(e.view(), old(self).parent@).0,
            match member_emit(e.view(), old(self).parent@).1 {
                None => r is Ok,
                Some(k) => r matches Err(x) && x.kind@ == k && x.line == 0 && x.col == 0,
            },
    {
        match e {
            Element::Class(c) => match self.serialize_class(c.src.as_slice(), c.dst.as_slice()) {
                Ok(_) => Ok(()),
                Err(x) => Err(x),
            },
            Element::Field(f) => {
                let desc: Option<&[u8]> = match &f.desc {
                    Some(d) => Some(d.as_slice()),
                    None => None,
                };
                match self.serialize_field(f.src.as_slice(), desc, f.dst.as_slice(), None) {
                    Ok(_) => Ok(()),
                    Err(x) => Err(x),
                }
            },
            Element::Method(f) => {
                let desc: Option<&[u8]> = match &f.desc {
                    Some(d) => Some(d.as_slice()),
                    None => None,
                };
                match self.serialize_method(f.src.as_slice(), desc, f.dst.as_slice(), None) {
                    Ok(_) => Ok(()),
                    Err(x) => Err(x),
                }
            },
            _ => Ok(()),
        }
    }

    /// Serializes elements inside the class one after another, stopping at the first error.
    pub fn serialize_elements(&mut self, es: &[Element]) -> (r: Result<(), Error>)
        ensures
            final(self).parent == old(self).parent,
            *final(final(self).writer) == *final(old(self).writer),
            final(self).writer@ == old(self).writer@ + members_emit(elements_view(es@), old(self).parent@).0,
            match members_emit(elements_view(es@), old(self).parent@).1 {
                None => r is Ok,
                Some(k) => r matches Err(x) && x.kind@ == k && x.line == 0 && x.col == 0,
            },
    {
        let ghost ev = elements_view(es@);
        let ghost p = self.parent@;
        proof {
            crate::element::lemma_elements_view_len(es@);
            assert(ev.subrange(0, ev.len() as int) == ev);
        }
        let mut i: usize = 0;
        while i < es.len()
            invariant
                i <= es@.len(),
                ev == elements_view(es@),
                ev.len() == es@.len(),
                forall|j: int| 0 <= j < es@.len() ==> #[trigger] ev[j] == es@[j].view(),
                p == old(self).parent@,
                self.parent == old(self).parent,
                *final(self.writer) == *final(old(self).writer),
                old(self).writer@ + members_emit(ev, p).0 == self.writer@ + members_emit(ev.subrange(i as int, ev.len() as int), p).0,
                members_emit(ev, p).1 == members_emit(ev.subrange(i as int, ev.len() as int), p).1,
            decreases es@.len() - i,
        {
            proof {
                lemma_members_step(ev, i as int, p);
            }
            let ghost before = self.writer@;
            match self.serialize_element(&es[i]) {
                Err(x) => {
                    return Err(x);
                },
                Ok(()) => {},
            }
            proof {
                let (b, _) = member_emit(ev[i as int], p);
                let (b2, _) = members_emit(ev.subrange(i + 1, ev.len() as int), p);
                assert(before + (b + b2) == self.writer@ + b2);
            }
            i = i + 1;
        }
        proof {
            assert(ev.subrange(i as int, ev.len() as int) =~= Seq::<SpecElement>::empty());
            assert(self.writer@ + Seq::<u8>::empty() == self.writer@);
        }
        Ok(())
    }
}

impl<'a> Serializer<'a> {
    /// Serializes a top-level element: what `top_emit` describes.
    pub fn serialize_element(&mut self, e: &Element) -> (r: Result<(), Error>)
        ensures
            *final(final(self).writer) == *final(old(self).writer),
            final(self).writer@ == old(self).writer@ + top_emit(e.view()).0,
            match top_emit(e.view()).1 {
                None => r is Ok,
                Some(k) => r matches Err(x) && x.kind@ == k && x.line == 0 && x.col == 0,
            },
    {
        match e {
            Element::Class(c) => {
                let mut child = match self.serialize_class(c.src.as_slice(), c.dst.as_slice()) {
                    Ok(ch) => ch,
                    Err(x) => {
                        return Err(x);
                    },
                };
                child.serialize_elements(c.content.as_slice())
            },
            Element::Field(f) => match self.serialize_field(f.src.as_slice(), None, f.dst.as_slice(), None) {
                Ok(_) => Ok(()),
                Err(x) => Err(x),
            },
            Element::Method(f) => match self.serialize_method(f.src.as_slice(), None, f.dst.as_slice(), None) {
                Ok(_) => Ok(()),
                Err(x) => Err(x),
            },
            _ => Ok(()),
        }
    }

    /// Serializes top-level elements one after another, stopping at the first error.
    pub fn serialize_elements(&mut self, es: &[Element]) -> (r: Result<(), Error>)
        ensures
            *final(final(self).writer) == *final(old(self).writer),
            final(self).writer@ == old(self).writer@ + tops_emit(elements_view(es@)).0,
            match tops_emit(elements_view(es@)).1 {
                None => r is Ok,
                Some(k) => r matches Err(x) && x.kind@ == k && x.line == 0 && x.col == 0,
            },
    {
        let ghost ev = elements_view(es@);
        proof {
            crate::element::lemma_elements_view_len(es@);
            assert(ev.subrange(0, ev.len() as int) == ev);
        }
        let mut i: usize = 0;
        while i < es.len()
            invariant
                i <= es@.len(),
                ev == elements_view(es@),
                ev.len() == es@.len(),
                forall|j: int| 0 <= j < es@.len() ==> #[trigger] ev[j] == es@[j].view(),
                *final(self.writer) == *final(old(self).writer),
                old(self).writer@ + tops_emit(ev).0 == self.writer@ + tops_emit(ev.subrange(i as int, ev.len() as int)).0,
                tops_emit(ev).1 == tops_emit(ev.subrange(i as int, ev.len() as int)).1,
            decreases es@.len() - i,
        {
            proof {
                lemma_tops_step(ev, i as int);
            }
            let ghost before = self.writer@;
            match self.serialize_element(&es[i]) {
                Err(x) => {
                    return Err(x);
                },
                Ok(()) => {},
            }
            proof {
                let (b, _) = top_emit(ev[i as int]);
                let (b2, _) = tops_emit(ev.subrange(i + 1, ev.len() as int));
                assert(before + (b + b2) == self.writer@ + b2);
            }
            i = i + 1;
        }
        proof {
            assert(ev.subrange(i as int, ev.len() as int) =~= Seq::<SpecElement>::empty());
            assert(self.writer@ + Seq::<u8>::empty() == self.writer@);
        }
        Ok(())
    }
}

/// Serializes elements after a header into the given buffer, after what it holds.
pub fn to_writer(writer: &mut Vec<u8>, value: &[Element], src: &[u8], dst: &[Vec<u8>], props: &[(&[u8], Option<&[u8]>)]) -> (r: Result<(), Error>)
    ensures
        ({
            let (b, err) = tops_emit(elements_view(value@));
            &&& final(writer)@ == old(writer)@ + header_text(src@, names_view(dst@), crate::tiny2::props_arg(props@)) + b
            &&& match err {
                None => r is Ok,
                Some(k) => r matches Err(x) && x.kind@ == k && x.line == 0 && x.col == 0,
            }
        }),
{
    let mut ser = match Serializer::new(writer, src, dst, props) {
        Ok(s) => s,
        Err(e) => {
            return Err(e);
        },
    };
    ser.serialize_elements(value)
}

/// Serializes elements after a header into a new buffer.
pub fn to_vec(value: &[Element], src: &[u8], dst: &[Vec<u8>], props: &[(&[u8], Option<&[u8]>)]) -> (r: Result<Vec<u8>, Error>)
    ensures
        ({
            let (b, err) = tops_emit(elements_view(value@));
            match err {
                None => r matches Ok(v) && v@ == header_text(src@, names_view(dst@), crate::tiny2::props_arg(props@)) + b,
                Some(k) => r matches Err(x) && x.kind@ == k && x.line == 0 && x.col == 0,
            }
        }),
{
    let mut vec: Vec<u8> = Vec::new();
    match to_writer(&mut vec, value, src, dst, props) {
        Ok(()) => Ok(vec),
        Err(e) => Err(e),
    }
}

} // verus!
