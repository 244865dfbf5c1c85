//! Line- and column-based readers over byte input.
use vstd::prelude::*;
use crate::bytes::{
    find_byte, is_ascii_ws, leading_count, lemma_find_byte, lemma_find_byte_at, lemma_leading_count_bound,
    lemma_trim_end_at, lemma_trim_start_at, split_once, trim_ascii, trim_start,
};

verus! {

/// Position of the first occurrence of `needle` in `haystack`.
///
/// Calls `memchr::memchr`; its documentation promises the index of the first
/// occurrence of the byte, or `None` when the byte does not occur. That is all
/// that this contract claims.
#[verifier::external_body]
fn memchr_first(needle: u8, haystack: &[u8]) -> (r: Option<usize>)
    ensures
        match r {
            Some(i) => i < haystack@.len() && haystack@[i as int] == needle && forall|j: int|
                0 <= j < i ==> haystack@[j] != needle,
            None => forall|j: int| 0 <= j < haystack@.len() ==> haystack@[j] != needle,
        },
{
    memchr::memchr(needle, haystack)
}

/// First occurrence of `needle` in `haystack`, as `find_byte` describes it.
pub fn find_first(needle: u8, haystack: &[u8]) -> (r: Option<usize>)
    ensures
        match r {
            Some(i) => find_byte(haystack@, needle) == Some(i as int),
            None => find_byte(haystack@, needle) is None,
        },
{
    let r = memchr_first(needle, haystack);
    proof {
        lemma_find_byte(haystack@, needle);
        match r {
            Some(i) => lemma_find_byte_at(haystack@, needle, i as int),
            None => {
                if let Some(k) = find_byte(haystack@, needle) {
                    assert(haystack@[k] != needle);
                }
            },
        }
    }
    r
}

/// Reference that could have two variants of lifetime.
#[derive(Debug)]
pub enum MaybeBorrowed<'s, 'de: 's, T: ?Sized> {
    /// Semantically temporary reference.
    Short(&'s T),
    /// Semantically borrowed reference.
    Borrowed(&'de T),
}

impl<'s, 'de: 's, T: ?Sized> MaybeBorrowed<'s, 'de, T> {
    /// The referenced value, whichever lifetime it carries.
    pub open spec fn value(&self) -> &T {
        match self {
            MaybeBorrowed::Short(v) => v,
            MaybeBorrowed::Borrowed(v) => v,
        }
    }

    /// Whether this is a semantically borrowed-lifetime reference.
    pub fn is_borrowed(&self) -> (r: bool)
        ensures
            r == (self is Borrowed),
    {
        matches!(self, Self::Borrowed(_))
    }

    /// Returns the borrowed variant if valid.
    pub fn as_borrowed(&self) -> (r: Option<&'de T>)
        ensures
            (r is Some) == (self is Borrowed),
            match self {
                MaybeBorrowed::Short(_) => r is None,
                MaybeBorrowed::Borrowed(b) => r == Some(*b),
            },
    {
        match self {
            MaybeBorrowed::Short(_) => None,
            MaybeBorrowed::Borrowed(b) => Some(b),
        }
    }

    /// Returns the short variant if valid.
    pub fn as_short(&self) -> (r: &'s T)
        ensures
            r == self.value(),
    {
        match self {
            MaybeBorrowed::Short(s) => s,
            MaybeBorrowed::Borrowed(b) => b,
        }
    }
}

impl<'s, 'de: 's, T: ?Sized> core::ops::Deref for MaybeBorrowed<'s, 'de, T> {
    type Target = T;

    /// The referenced value, whichever lifetime it carries.
    fn deref(&self) -> (r: &T)
        ensures
            r == self.value(),
    {
        match self {
            MaybeBorrowed::Short(v) => v,
            MaybeBorrowed::Borrowed(v) => v,
        }
    }
}

impl<'s, 'de: 's, T: ?Sized> MaybeBorrowed<'s, 'de, T> {
    /// Maps the inner reference into another type of reference.
    pub fn map<F, U: ?Sized>(self, f: F) -> (r: MaybeBorrowed<'s, 'de, U>) where
        F: for <'a>FnOnce(&'a T) -> &'a U,

        requires
            call_requires(f, (self.value(),)),
        ensures
            call_ensures(f, (self.value(),), r.value()),
            (r is Borrowed) == (self is Borrowed),
    {
        match self {
            MaybeBorrowed::Short(v) => MaybeBorrowed::Short(f(v)),
            MaybeBorrowed::Borrowed(v) => MaybeBorrowed::Borrowed(f(v)),
        }
    }

    /// Maps the inner reference into another type of reference, or fails if the given function failed.
    pub fn try_map<F, U: ?Sized, E>(self, f: F) -> (r: Result<MaybeBorrowed<'s, 'de, U>, E>) where
        F: for <'a>FnOnce(&'a T) -> Result<&'a U, E>,

        requires
            call_requires(f, (self.value(),)),
        ensures
            match r {
                Ok(m) => call_ensures(f, (self.value(),), Ok(m.value())) && (m is Borrowed) == (
                self is Borrowed),
                Err(e) => call_ensures(f, (self.value(),), Err(e)),
            },
    {
        match self {
            MaybeBorrowed::Short(v) => match f(v) {
                Ok(u) => Ok(MaybeBorrowed::Short(u)),
                Err(e) => Err(e),
            },
            MaybeBorrowed::Borrowed(v) => match f(v) {
                Ok(u) => Ok(MaybeBorrowed::Borrowed(u)),
                Err(e) => Err(e),
            },
        }
    }
}

impl<'a, T> MaybeMut<'a, T> {
    /// The value, owned or behind the reference.
    pub open spec fn value(&self) -> T {
        match self {
            MaybeMut::Owned(v) => *v,
            MaybeMut::Mut(v) => **v,
        }
    }

    /// Reborrows the underlying value into a mutable reference.
    pub fn reclaim(&mut self) -> (r: MaybeMut<'_, T>)
        ensures
            r is Mut,
            *(r->Mut_0) == old(self).value(),
            final(self).value() == *final(r->Mut_0),
            (*final(self) is Owned) == (*old(self) is Owned),
    {
        match self {
            MaybeMut::Owned(v) => MaybeMut::Mut(v),
            MaybeMut::Mut(v) => MaybeMut::Mut(&mut **v),
        }
    }
}

impl<'s, 'de: 's> MaybeBorrowed<'s, 'de, [u8]> {
    /// The bytes `start..end` of the referenced slice, keeping the lifetime variant.
    pub fn slice(self, start: usize, end: usize) -> (r: MaybeBorrowed<'s, 'de, [u8]>)
        requires
            start <= end <= self.value()@.len(),
        ensures
            r.value()@ == self.value()@.subrange(start as int, end as int),
            (r is Borrowed) == (self is Borrowed),
    {
        match self {
            MaybeBorrowed::Short(s) => MaybeBorrowed::Short(&s[start..end]),
            MaybeBorrowed::Borrowed(b) => MaybeBorrowed::Borrowed(&b[start..end]),
        }
    }
}

/// Whether an optional byte reference, where present, borrows from the input itself.
pub open spec fn opt_borrowed<'s, 'de>(r: Option<MaybeBorrowed<'s, 'de, [u8]>>) -> bool {
    r matches Some(m) ==> m is Borrowed
}

/// The bytes an optional byte reference points to.
pub open spec fn opt_bytes<'s, 'de>(r: Option<MaybeBorrowed<'s, 'de, [u8]>>) -> Option<Seq<u8>> {
    match r {
        Some(m) => Some(m.value()@),
        None => None,
    }
}

/// A mutable value that could be owned or be a mutable reference, possibly inherited from a parent node.
#[derive(Debug)]
pub enum MaybeMut<'a, T> {
    /// An owned value.
    Owned(T),
    /// A mutable reference.
    Mut(&'a mut T),
}

/// The state of a [`Read`] adapter: the bytes that later reads hand out, and the latest read.
pub ghost struct ReadState {
    pub rest: Seq<u8>,
    pub last: Option<Seq<u8>>,
}

/// Borrowed readers.
///
/// `last_read` hands out what the latest `read_until` returned, for as long as no other read happens.
pub trait Read<'de> {
    /// What this reader holds, as bytes still to be read and the latest read.
    spec fn spec_state(&self) -> ReadState;

    /// The reader's own consistency.
    spec fn spec_wf(&self) -> bool;

    /// Whether the reads hand out bytes borrowed from the input itself, not from a buffer.
    spec fn spec_hands_borrowed() -> bool;

    /// The bytes `read_until(separator)` hands out when `rest` remains to be read.
    spec fn spec_chunk(rest: Seq<u8>, separator: u8) -> Seq<u8>;

    /// The bytes left to read after `read_until(separator)` when `rest` remained.
    spec fn spec_rest_after(rest: Seq<u8>, separator: u8) -> Seq<u8>;

    /// Reads the remaining bytes until occurs the given `separator`, or EOF, and returns the read bytes in slice.
    fn read_until(&mut self, separator: u8) -> (r: MaybeBorrowed<'_, 'de, [u8]>)
        requires
            old(self).spec_wf(),
        ensures
            final(self).spec_wf(),
            r.value()@ == Self::spec_chunk(old(self).spec_state().rest, separator),
            final(self).spec_state() == (ReadState {
                rest: Self::spec_rest_after(old(self).spec_state().rest, separator),
                last: Some(r.value()@),
            }),
            Self::spec_hands_borrowed() ==> r is Borrowed,
            r.value()@.len() <= old(self).spec_state().rest.len(),
            final(self).spec_state().rest.len() <= old(self).spec_state().rest.len(),
            old(self).spec_state().rest.len() > 0 ==> final(self).spec_state().rest.len() < old(
                self,
            ).spec_state().rest.len(),
    ;

    /// Returns the latest bytes returned from `read_until`.
    fn last_read(&self) -> (r: Option<MaybeBorrowed<'_, 'de, [u8]>>)
        requires
            self.spec_wf(),
        ensures
            opt_bytes(r) == self.spec_state().last,
            Self::spec_hands_borrowed() ==> opt_borrowed(r),
    ;
    /// Whether no byte is left to read.
    fn is_exhausted(&self) -> (r: bool)
        requires
            self.spec_wf(),
        ensures
            r == (self.spec_state().rest.len() == 0),
    ;
}

/// [`Read`] adapter for borrowed slices.
#[derive(Debug, Clone)]
pub struct SliceReader<'a> {
    remaining: &'a [u8],
    last: Option<&'a [u8]>,
}

impl<'a> SliceReader<'a> {
    /// Creates a new reader from given slice.
    pub fn new(slice: &'a [u8]) -> (r: Self)
        requires
            slice@.len() < usize::MAX,
        ensures
            r.spec_wf(),
            r.spec_state() == (ReadState { rest: slice@, last: None }),
    {
        Self { remaining: slice, last: None }
    }
}

/// The bytes a slice reader hands out: those before the first separator, or all that is left.
pub open spec fn slice_chunk(rest: Seq<u8>, separator: u8) -> Seq<u8> {
    match find_byte(rest, separator) {
        Some(i) => rest.subrange(0, i),
        None => rest,
    }
}

/// What a slice reader keeps after a read: the bytes after the first separator, or nothing.
pub open spec fn slice_rest_after(rest: Seq<u8>, separator: u8) -> Seq<u8> {
    match find_byte(rest, separator) {
        Some(i) => rest.subrange(i + 1, rest.len() as int),
        None => Seq::empty(),
    }
}

impl<'de> Read<'de> for SliceReader<'de> {
    closed spec fn spec_state(&self) -> ReadState {
        ReadState {
            rest: self.remaining@,
            last: match self.last {
                Some(l) => Some(l@),
                None => None,
            },
        }
    }

    closed spec fn spec_wf(&self) -> bool {
        self.remaining@.len() < usize::MAX
    }

    open spec fn spec_hands_borrowed() -> bool {
        true
    }

    open spec fn spec_chunk(rest: Seq<u8>, separator: u8) -> Seq<u8> {
        slice_chunk(rest, separator)
    }

    open spec fn spec_rest_after(rest: Seq<u8>, separator: u8) -> Seq<u8> {
        slice_rest_after(rest, separator)
    }

    fn read_until(&mut self, separator: u8) -> (r: MaybeBorrowed<'_, 'de, [u8]>) {
        proof {
            lemma_find_byte(self.remaining@, separator);
        }
        if let Some(loc) = find_first(separator, self.remaining) {
            let (sliced, rest) = self.remaining.split_at(loc);
            let rest = &rest[1..rest.len()];
            assert(rest@ == slice_rest_after(old(self).remaining@, separator));
            self.remaining = rest;
            self.last = Some(sliced);
            MaybeBorrowed::Borrowed(sliced)
        } else {
            let slice = self.remaining;
            let n = slice.len();
            self.last = Some(slice);
            self.remaining = &slice[n..n];
            assert(self.remaining@ == Seq::<u8>::empty());
            MaybeBorrowed::Borrowed(slice)
        }
    }

    fn last_read(&self) -> (r: Option<MaybeBorrowed<'_, 'de, [u8]>>) {
        match self.last {
            Some(l) => Some(MaybeBorrowed::Borrowed(l)),
            None => None,
        }
    }
    fn is_exhausted(&self) -> (r: bool) {
        self.remaining.len() == 0
    }
}

/// The state of a [`ColumnRead`] adapter.
pub ghost struct ColState {
    /// Bytes not yet split into lines.
    pub rest: Seq<u8>,
    /// What remains of the current line, if a line stands.
    pub line: Option<Seq<u8>>,
    /// Indentation count of the current line.
    pub indent: Option<usize>,
    /// The latest column handed out.
    pub last_col: Option<Seq<u8>>,
}

/// Reading a column: the bytes of the line up to the separator, the line keeping what follows it.
/// An absent or empty line gives no column and changes nothing.
pub open spec fn spec_read_col(st: ColState, separator: u8) -> (Option<Seq<u8>>, ColState) {
    match st.line {
        None => (None, st),
        Some(l) => if l.len() == 0 {
            (None, st)
        } else {
            match split_once(l, separator) {
                Some((c, r)) => (
                    Some(c),
                    ColState { rest: st.rest, line: Some(r), indent: st.indent, last_col: Some(c) },
                ),
                None => (
                    Some(l),
                    ColState { rest: st.rest, line: None, indent: st.indent, last_col: Some(l) },
                ),
            }
        },
    }
}

/// The content of a raw line: the leading `indent` bytes stripped, then ASCII whitespace trimmed.
pub open spec fn line_content(chunk: Seq<u8>, indent: u8) -> Seq<u8> {
    trim_ascii(chunk.subrange(leading_count(chunk, indent) as int, chunk.len() as int))
}

/// Lengths that column counters can grow by on the current line.
pub open spec fn line_potential(st: ColState) -> nat {
    match st.line {
        Some(l) => l.len() + 1,
        None => 0,
    }
}

/// Lengths that a [`ColState`] keeps below the machine limit.
pub open spec fn col_state_bounded(st: ColState) -> bool {
    &&& st.rest.len() < usize::MAX
    &&& line_potential(st) <= usize::MAX
    &&& st.indent matches Some(i) ==> i < usize::MAX
}

/// Borrowed column-based readers.
pub trait ColumnRead<'de> {
    /// The reader's own consistency.
    spec fn spec_wf(&self) -> bool;

    /// What this reader holds.
    spec fn spec_state(&self) -> ColState;

    /// Result and state after `next_line(indent)` from state `st`.
    spec fn spec_next_line(st: ColState, indent: u8) -> (Option<usize>, ColState);

    /// Whether columns and lines are handed out borrowed from the input itself.
    spec fn spec_hands_borrowed() -> bool;

    /// Parses next column.
    fn read_col(&mut self, col_separator: u8) -> (r: Option<MaybeBorrowed<'_, 'de, [u8]>>)
        requires
            old(self).spec_wf(),
        ensures
            final(self).spec_wf(),
            opt_bytes(r) == spec_read_col(old(self).spec_state(), col_separator).0,
            final(self).spec_state() == spec_read_col(old(self).spec_state(), col_separator).1,
            Self::spec_hands_borrowed() ==> opt_borrowed(r),
    ;

    /// Jumps to next line and returns the indent depth.
    fn next_line(&mut self, indent: u8) -> (r: Option<usize>)
        requires
            old(self).spec_wf(),
        ensures
            final(self).spec_wf(),
            (r, final(self).spec_state()) == Self::spec_next_line(old(self).spec_state(), indent),
            final(self).spec_state().rest.len() <= old(self).spec_state().rest.len(),
            r is Some ==> final(self).spec_state().rest.len() < old(self).spec_state().rest.len(),
            r is None ==> line_potential(final(self).spec_state()) <= line_potential(
                old(self).spec_state(),
            ),
            old(self).spec_state().rest.len() < usize::MAX && (old(self).spec_state().indent matches Some(
                i,
            ) ==> i < usize::MAX) ==> col_state_bounded(final(self).spec_state()),
    ;

    /// The latest column bytes.
    fn last_col(&self) -> (r: Option<MaybeBorrowed<'_, 'de, [u8]>>)
        requires
            self.spec_wf(),
        ensures
            opt_bytes(r) == self.spec_state().last_col,
            Self::spec_hands_borrowed() ==> opt_borrowed(r),
    ;

    /// The latest line bytes, would be truncated if some columns have already been read.
    fn this_line(&self) -> (r: Option<MaybeBorrowed<'_, 'de, [u8]>>)
        requires
            self.spec_wf(),
        ensures
            opt_bytes(r) == self.spec_state().line,
            Self::spec_hands_borrowed() ==> opt_borrowed(r),
    ;

    /// The latest line indentation count.
    fn this_indent(&self) -> (r: Option<usize>)
        requires
            self.spec_wf(),
        ensures
            r == self.spec_state().indent,
    ;
}

/// A simple [`ColumnRead`] implementation around [`Read`] trait.
///
/// The current line and the latest column are kept as ranges into the latest read of the inner reader.
#[derive(Debug, Clone)]
pub struct ColumnReadAdapter<R> {
    line: Option<(usize, usize)>,
    indent: Option<usize>,
    last_col: Option<(usize, usize)>,
    inner: R,
}

/// The bytes a range stands for inside the latest read.
pub open spec fn range_bytes(last: Option<Seq<u8>>, range: Option<(usize, usize)>) -> Option<Seq<u8>> {
    match range {
        Some((a, b)) => match last {
            Some(l) => Some(l.subrange(a as int, b as int)),
            None => None,
        },
        None => None,
    }
}

/// Whether a range lies inside the latest read.
pub open spec fn range_ok(last: Option<Seq<u8>>, range: Option<(usize, usize)>) -> bool {
    match range {
        Some((a, b)) => match last {
            Some(l) => a <= b <= l.len(),
            None => false,
        },
        None => true,
    }
}

/// What stands as the current line once the input ended: an emptied line stays, any other goes.
pub open spec fn eof_line(line: Option<Seq<u8>>) -> Option<Seq<u8>> {
    match line {
        Some(l) => if l.len() == 0 {
            Some(Seq::empty())
        } else {
            None
        },
        None => None,
    }
}

/// `next_line` of a [`ColumnReadAdapter`] over a reader of type `R`: `None` once no byte is
/// left; otherwise the next chunk, which may be an empty line, becomes the current line.
pub open spec fn adapter_next_line<'de, R: Read<'de>>(st: ColState, indent: u8) -> (
    Option<usize>,
    ColState,
) {
    let chunk = R::spec_chunk(st.rest, 0x0au8);
    let rest = R::spec_rest_after(st.rest, 0x0au8);
    if st.rest.len() == 0 {
        (None, ColState { rest, line: eof_line(st.line), indent: st.indent, last_col: None })
    } else {
        let count = leading_count(chunk, indent) as usize;
        (
            Some(count),
            ColState {
                rest,
                line: Some(line_content(chunk, indent)),
                indent: Some(count),
                last_col: None,
            },
        )
    }
}

impl<'de, R: Read<'de>> ColumnReadAdapter<R> {
    /// Creates a new column read adapter from given reader.
    pub fn new(inner: R) -> (r: Self)
        ensures
            inner.spec_wf() && inner.spec_state().rest.len() < usize::MAX && (inner.spec_state().last matches Some(l) ==> l.len() < usize::MAX) ==> r.spec_wf(),
            r.spec_state() == (ColState {
                rest: inner.spec_state().rest,
                line: None,
                indent: None,
                last_col: None,
            }),
    {
        Self { line: None, indent: None, last_col: None, inner }
    }
}

/// Indices `s..e` with `chunk[s..e]` the content of the line `chunk`.
fn content_range(chunk: &[u8], indent: u8) -> (r: (usize, usize, usize))
    ensures
        r.0 == leading_count(chunk@, indent),
        r.0 <= r.1 <= r.2 <= chunk@.len(),
        chunk@.subrange(r.1 as int, r.2 as int) == line_content(chunk@, indent),
{
    let n = chunk.len();
    let mut count: usize = 0;
    while count < n && chunk[count] == indent
        invariant
            count <= n == chunk@.len(),
            forall|j: int| 0 <= j < count ==> chunk@[j] == indent,
        decreases n - count,
    {
        count = count + 1;
    }
    proof {
        lemma_leading_count_bound(chunk@, indent);
        let lc = leading_count(chunk@, indent);
        if lc < count {
            assert(chunk@[lc as int] == indent);
        } else if lc > count {
            assert(chunk@[count as int] == indent);
        }
    }
    let mut s: usize = count;
    while s < n && (chunk[s] == 0x20u8 || chunk[s] == 0x09u8 || chunk[s] == 0x0au8 || chunk[s]
        == 0x0cu8 || chunk[s] == 0x0du8)
        invariant
            count <= s <= n == chunk@.len(),
            forall|j: int| count <= j < s ==> is_ascii_ws(#[trigger] chunk@[j]),
        decreases n - s,
    {
        s = s + 1;
    }
    let mut e: usize = n;
    while e > s && (chunk[e - 1] == 0x20u8 || chunk[e - 1] == 0x09u8 || chunk[e - 1] == 0x0au8
        || chunk[e - 1] == 0x0cu8 || chunk[e - 1] == 0x0du8)
        invariant
            s <= e <= n == chunk@.len(),
            forall|j: int| e <= j < n ==> is_ascii_ws(#[trigger] chunk@[j]),
        decreases e,
    {
        e = e - 1;
    }
    proof {
        let t = chunk@.subrange(count as int, n as int);
        assert forall|j: int| 0 <= j < s - count implies is_ascii_ws(#[trigger] t[j]) by {
            assert(t[j] == chunk@[j + count]);
        }
        assert(s - count < t.len() ==> t[s - count] == chunk@[s as int]);
        lemma_trim_start_at(t, s - count);
        let u = trim_start(t);
        assert(u == chunk@.subrange(s as int, n as int));
        assert forall|j: int| e - s <= j < u.len() implies is_ascii_ws(#[trigger] u[j]) by {
            assert(u[j] == chunk@[j + s]);
        }
        assert(e - s > 0 ==> u[e - s - 1] == chunk@[e - 1]);
        lemma_trim_end_at(u, e - s);
        assert(u.subrange(0, e - s) == chunk@.subrange(s as int, e as int));
    }
    (count, s, e)
}

impl<'de, R: Read<'de>> ColumnRead<'de> for ColumnReadAdapter<R> {
    closed spec fn spec_wf(&self) -> bool {
        &&& self.inner.spec_wf()
        &&& self.inner.spec_state().rest.len() < usize::MAX
        &&& range_ok(self.inner.spec_state().last, self.line)
        &&& range_ok(self.inner.spec_state().last, self.last_col)
        &&& self.inner.spec_state().last matches Some(l) ==> l.len() < usize::MAX
    }

    closed spec fn spec_state(&self) -> ColState {
        ColState {
            rest: self.inner.spec_state().rest,
            line: range_bytes(self.inner.spec_state().last, self.line),
            indent: self.indent,
            last_col: range_bytes(self.inner.spec_state().last, self.last_col),
        }
    }

    open spec fn spec_next_line(st: ColState, indent: u8) -> (Option<usize>, ColState) {
        adapter_next_line::<'de, R>(st, indent)
    }

    open spec fn spec_hands_borrowed() -> bool {
        R::spec_hands_borrowed()
    }

    fn read_col(&mut self, col_separator: u8) -> (r: Option<MaybeBorrowed<'_, 'de, [u8]>>) {
        let (a, b) = match self.line {
            None => return None,
            Some(range) => range,
        };
        if a == b {
            proof {
                assert(self.spec_state().line.unwrap().len() == 0);
            }
            return None;
        }
        let pos = {
            let last = self.inner.last_read().unwrap();
            let whole: &[u8] = last.as_short();
            let line: &[u8] = &whole[a..b];
            find_first(col_separator, line)
        };
        let ghost l = self.inner.spec_state().last.unwrap().subrange(a as int, b as int);
        proof {
            lemma_find_byte(l, col_separator);
        }
        match pos {
            Some(p) => {
                proof {
                    let whole = self.inner.spec_state().last.unwrap();
                    assert(l.subrange(0, p as int) == whole.subrange(a as int, (a + p) as int));
                    assert(l.subrange(p + 1, l.len() as int) == whole.subrange(
                        (a + p + 1) as int,
                        b as int,
                    ));
                }
                self.line = Some((a + p + 1, b));
                self.last_col = Some((a, a + p));
            },
            None => {
                self.line = None;
                self.last_col = Some((a, b));
            },
        }
        (*self).last_col()
    }

    fn next_line(&mut self, indent: u8) -> (r: Option<usize>) {
        let ghost old_rest = self.inner.spec_state().rest;
        let ghost old_line = self.spec_state().line;
        let at_end = self.inner.is_exhausted();
        let (count, s, e) = {
            let slice = self.inner.read_until(0x0au8);
            let bytes: &[u8] = slice.as_short();
            content_range(bytes, indent)
        };
        if at_end {
            let keep = match self.line {
                Some((a, b)) => a == b,
                None => false,
            };
            self.line = if keep {
                Some((0, 0))
            } else {
                None
            };
            self.last_col = None;
            proof {
                assert(keep == (old_line matches Some(l) && l.len() == 0));
                let last = self.inner.spec_state().last.unwrap();
                assert(last.subrange(0, 0) == Seq::<u8>::empty());
            }
            return None;
        }
        self.line = Some((s, e));
        self.indent = Some(count);
        self.last_col = None;
        Some(count)
    }

    fn last_col(&self) -> (r: Option<MaybeBorrowed<'_, 'de, [u8]>>) {
        match self.last_col {
            None => None,
            Some((a, b)) => match self.inner.last_read() {
                Some(m) => Some(m.slice(a, b)),
                None => None,
            },
        }
    }

    fn this_line(&self) -> (r: Option<MaybeBorrowed<'_, 'de, [u8]>>) {
        match self.line {
            None => None,
            Some((a, b)) => match self.inner.last_read() {
                Some(m) => Some(m.slice(a, b)),
                None => None,
            },
        }
    }

    fn this_indent(&self) -> (r: Option<usize>) {
        self.indent
    }
}


/// `ColumnReader::next_line` from state `st`: inner lines are read until one with content stands.
/// Gives the indentation found, the state after, and how many inner lines were read.
pub open spec fn skip_blank_lines<'de, R: ColumnRead<'de>>(st: ColState, indent: u8) -> (
    Option<usize>,
    ColState,
    nat,
)
    decreases st.rest.len(),
{
    let (r, st2) = R::spec_next_line(st, indent);
    match r {
        None => (None, st2, 0),
        Some(i) => if st2.line matches Some(l) && l.len() > 0 {
            (Some(i), st2, 1)
        } else if st2.rest.len() < st.rest.len() {
            let (r3, st3, n) = skip_blank_lines::<'de, R>(st2, indent);
            (r3, st3, n + 1)
        } else {
            (None, st2, 1)
        },
    }
}

/// High-level column-based reader for human.
#[derive(Debug, Clone)]
pub struct ColumnReader<R> {
    indent: u8,
    col_separator: u8,
    line: usize,
    col: usize,
    fresh_line: bool,
    inner: R,
}

impl<R> ColumnReader<R> {
    /// Indentation byte.
    pub closed spec fn spec_indent_byte(&self) -> u8 {
        self.indent
    }

    /// Column separator byte.
    pub closed spec fn spec_separator(&self) -> u8 {
        self.col_separator
    }

    /// Line counter.
    pub closed spec fn spec_line(&self) -> usize {
        self.line
    }

    /// Column counter.
    pub closed spec fn spec_col(&self) -> usize {
        self.col
    }

    /// Whether no column of the current line was accessed yet.
    pub closed spec fn spec_fresh(&self) -> bool {
        self.fresh_line
    }

    /// The wrapped column reader.
    pub closed spec fn spec_inner(&self) -> R {
        self.inner
    }

    /// Returns the current logical column number.
    pub fn col(&self) -> (r: usize)
        ensures
            r == self.spec_col(),
    {
        self.col
    }

    /// Returns the current line number.
    pub fn line(&self) -> (r: usize)
        ensures
            r == self.spec_line(),
    {
        self.line
    }

    /// Whether the current line is freshly-read (no columns been accessed yet).
    pub fn is_fresh_line(&self) -> (r: bool)
        ensures
            r == self.spec_fresh(),
    {
        self.fresh_line
    }

    /// Marks the current line dirty.
    pub fn mark_dirty(&mut self)
        ensures
            final(self).spec_fresh() == false,
            final(self).spec_inner() == old(self).spec_inner(),
            final(self).spec_line() == old(self).spec_line(),
            final(self).spec_col() == old(self).spec_col(),
            final(self).spec_indent_byte() == old(self).spec_indent_byte(),
            final(self).spec_separator() == old(self).spec_separator(),
    {
        self.fresh_line = false;
    }
}

impl<'de, R: ColumnRead<'de>> ColumnReader<R> {
    /// What the inner reader holds.
    pub open spec fn spec_state(&self) -> ColState {
        self.spec_inner().spec_state()
    }

    /// The reader's consistency: the inner reader's, and counters that cannot overflow.
    pub open spec fn wf(&self) -> bool {
        &&& self.spec_inner().spec_wf()
        &&& col_state_bounded(self.spec_state())
        &&& self.spec_line() + self.spec_state().rest.len() < usize::MAX
        &&& self.spec_col() + line_potential(self.spec_state()) <= usize::MAX
    }

    /// Creates a new column reader from given properties and the underlying read adapter.
    pub fn new(indent: u8, col_separator: u8, inner: R) -> (r: Self)
        ensures
            r.spec_indent_byte() == indent,
            r.spec_separator() == col_separator,
            r.spec_line() == 0,
            r.spec_col() == 0,
            !r.spec_fresh(),
            r.spec_inner() == inner,
            inner.spec_wf() && col_state_bounded(inner.spec_state()) ==> r.wf(),
    {
        Self { indent, col_separator, line: 0, col: 0, fresh_line: false, inner }
    }

    /// The latest column bytes.
    pub fn last_col(&self) -> (r: Option<MaybeBorrowed<'_, 'de, [u8]>>)
        requires
            self.wf(),
        ensures
            opt_bytes(r) == self.spec_state().last_col,
            R::spec_hands_borrowed() ==> opt_borrowed(r),
    {
        self.inner.last_col()
    }

    /// The latest line bytes, would be truncated if some columns have already been read.
    pub fn this_line(&self) -> (r: Option<MaybeBorrowed<'_, 'de, [u8]>>)
        requires
            self.wf(),
        ensures
            opt_bytes(r) == self.spec_state().line,
            R::spec_hands_borrowed() ==> opt_borrowed(r),
    {
        self.inner.this_line()
    }

    /// The latest line indentation count.
    pub fn this_indent(&self) -> (r: Option<usize>)
        requires
            self.wf(),
        ensures
            r == self.spec_state().indent,
    {
        self.inner.this_indent()
    }

    /// Parses next column.
    pub fn read_col(&mut self) -> (r: Option<MaybeBorrowed<'_, 'de, [u8]>>)
        requires
            old(self).wf(),
        ensures
            final(self).wf(),
            opt_bytes(r) == spec_read_col(old(self).spec_state(), old(self).spec_separator()).0,
            final(self).spec_state() == spec_read_col(
                old(self).spec_state(),
                old(self).spec_separator(),
            ).1,
            final(self).spec_col() == old(self).spec_col() + (if r is Some {
                1int
            } else {
                0int
            }),
            final(self).spec_line() == old(self).spec_line(),
            !final(self).spec_fresh(),
            final(self).spec_indent_byte() == old(self).spec_indent_byte(),
            final(self).spec_separator() == old(self).spec_separator(),
            R::spec_hands_borrowed() ==> opt_borrowed(r),
    {
        proof {
            let st = self.spec_state();
            if let Some(l) = st.line {
                lemma_find_byte(l, self.col_separator);
            }
        }
        let sep = self.col_separator;
        self.fresh_line = false;
        let r = self.inner.read_col(sep);
        if r.is_some() {
            self.col = self.col + 1;
        }
        r
    }

    /// Jumps to next line and returns the indent depth.
    pub fn next_line(&mut self) -> (r: Option<usize>)
        requires
            old(self).wf(),
        ensures
            final(self).wf(),
            ({
                let (res, st, n) = skip_blank_lines::<'de, R>(
                    old(self).spec_state(),
                    old(self).spec_indent_byte(),
                );
                &&& r == res
                &&& final(self).spec_state() == st
                &&& final(self).spec_line() == old(self).spec_line() + n
                &&& final(self).spec_col() == (if n > 0 {
                    0
                } else {
                    old(self).spec_col()
                })
                &&& final(self).spec_fresh() == (if n > 0 {
                    true
                } else {
                    old(self).spec_fresh()
                })
            }),
            final(self).spec_indent_byte() == old(self).spec_indent_byte(),
            final(self).spec_separator() == old(self).spec_separator(),
    {
        let ghost st0 = self.spec_state();
        let ghost line0 = self.line;
        let ghost col0 = self.col;
        let ghost fresh0 = self.fresh_line;
        let indent = self.indent;
        loop
            invariant
                self.wf(),
                self.indent == indent,
                indent == old(self).indent,
                st0 == old(self).spec_state(),
                line0 == old(self).line,
                col0 == old(self).col,
                fresh0 == old(self).fresh_line,
                self.col_separator == old(self).col_separator,
                self.line >= line0,
                self.line > line0 ==> self.col == 0 && self.fresh_line,
                self.line == line0 ==> self.col == col0 && self.fresh_line == fresh0,
                self.line > line0 ==> !(self.spec_state().line matches Some(l) && l.len() > 0),
                ({
                    let (res, st, n) = skip_blank_lines::<'de, R>(st0, indent);
                    let (res2, st2, n2) = skip_blank_lines::<'de, R>(self.spec_state(), indent);
                    res == res2 && st == st2 && n == n2 + (self.line - line0)
                }),
            decreases self.spec_state().rest.len(),
        {
            let ghost prev = self.spec_state();
            match self.inner.next_line(indent) {
                None => {
                    return None;
                },
                Some(i) => {
                    self.line = self.line + 1;
                    self.col = 0;
                    self.fresh_line = true;
                    let nonempty = match self.inner.this_line() {
                        Some(l) => l.as_short().len() > 0,
                        None => false,
                    };
                    if nonempty {
                        return Some(i);
                    }
                },
            }
        }
    }
}


/// Reading a column gives one only while the line has something left, and then the line shrinks.
pub proof fn lemma_read_col_progress(st: ColState, separator: u8)
    ensures
        spec_read_col(st, separator).0 is None ==> spec_read_col(st, separator).1 == st,
        spec_read_col(st, separator).0 is Some ==> line_potential(spec_read_col(st, separator).1)
            < line_potential(st),
        spec_read_col(st, separator).1.rest == st.rest,
        spec_read_col(st, separator).1.indent == st.indent,
{
    if let Some(l) = st.line {
        lemma_find_byte(l, separator);
    }
}

/// `n` successive column reads from state `st`.
pub open spec fn spec_read_cols(st: ColState, separator: u8, n: nat) -> (Seq<Option<Seq<u8>>>, ColState)
    decreases n,
{
    if n == 0 {
        (Seq::empty(), st)
    } else {
        let (c, st2) = spec_read_col(st, separator);
        let (cs, st3) = spec_read_cols(st2, separator, (n - 1) as nat);
        (seq![c] + cs, st3)
    }
}

/// Column reads from state `st` until none is left.
pub open spec fn spec_all_cols(st: ColState, separator: u8) -> (Seq<Seq<u8>>, ColState)
    decreases line_potential(st),
{
    let (c, st2) = spec_read_col(st, separator);
    match c {
        None => (Seq::empty(), st),
        Some(col) => if line_potential(st2) < line_potential(st) {
            let (cs, st3) = spec_all_cols(st2, separator);
            (seq![col] + cs, st3)
        } else {
            (seq![col], st2)
        },
    }
}

/// How many entries of `s` are present.
pub open spec fn count_some<T>(s: Seq<Option<T>>) -> nat
    decreases s.len(),
{
    if s.len() == 0 {
        0
    } else {
        (if s[0] is Some {
            1nat
        } else {
            0nat
        }) + count_some(s.drop_first())
    }
}

/// Owned copies of optional column bytes.
pub open spec fn owned_cols(s: Seq<Option<Vec<u8>>>) -> Seq<Option<Seq<u8>>> {
    s.map_values(|o: Option<Vec<u8>>| match o {
        Some(v) => Some(v@),
        None => None,
    })
}

impl<'de, R: ColumnRead<'de>> ColumnReader<R> {
    /// Parses next `n` columns, handing out owned copies; an absent column is `None`.
    pub fn read_cols(&mut self, n: usize) -> (r: Vec<Option<Vec<u8>>>)
        requires
            old(self).wf(),
        ensures
            final(self).wf(),
            owned_cols(r@) == spec_read_cols(old(self).spec_state(), old(self).spec_separator(), n as nat).0,
            final(self).spec_state() == spec_read_cols(
                old(self).spec_state(),
                old(self).spec_separator(),
                n as nat,
            ).1,
            final(self).spec_col() == old(self).spec_col() + count_some(
                spec_read_cols(old(self).spec_state(), old(self).spec_separator(), n as nat).0,
            ),
            final(self).spec_line() == old(self).spec_line(),
            n > 0 ==> !final(self).spec_fresh(),
            n == 0 ==> final(self).spec_fresh() == old(self).spec_fresh(),
            final(self).spec_indent_byte() == old(self).spec_indent_byte(),
            final(self).spec_separator() == old(self).spec_separator(),
    {
        let mut out: Vec<Option<Vec<u8>>> = Vec::new();
        let mut i: usize = 0;
        let ghost st0 = self.spec_state();
        let ghost col0 = self.spec_col();
        let ghost sep = self.spec_separator();
        while i < n
            invariant
                self.wf(),
                0 <= i <= n,
                out@.len() == i,
                sep == old(self).spec_separator(),
                st0 == old(self).spec_state(),
                col0 == old(self).spec_col(),
                self.spec_separator() == sep,
                self.spec_indent_byte() == old(self).spec_indent_byte(),
                self.spec_line() == old(self).spec_line(),
                i > 0 ==> !self.spec_fresh(),
                i == 0 ==> self.spec_fresh() == old(self).spec_fresh(),
                ({
                    let (all, fin) = spec_read_cols(st0, sep, n as nat);
                    let (rest, fin2) = spec_read_cols(self.spec_state(), sep, (n - i) as nat);
                    &&& all == owned_cols(out@) + rest
                    &&& fin == fin2
                    &&& col0 + count_some(all) == self.spec_col() + count_some(rest)
                }),
            decreases n - i,
        {
            let ghost before = self.spec_state();
            let ghost out_before = out@;
            let c = self.read_col();
            let item = match c {
                Some(m) => Some(vstd::slice::slice_to_vec(m.as_short())),
                None => None,
            };
            out.push(item);
            i = i + 1;
            proof {
                let (rest_b, _) = spec_read_cols(before, sep, (n - i + 1) as nat);
                assert(owned_cols(out@) == owned_cols(out_before) + seq![opt_view_vec(item)]);
                assert(rest_b == seq![spec_read_col(before, sep).0] + spec_read_cols(
                    self.spec_state(),
                    sep,
                    (n - i) as nat,
                ).0);
                assert(rest_b.drop_first() == spec_read_cols(self.spec_state(), sep, (n - i) as nat).0);
            }
        }
        out
    }

    /// Reads every column left in the current line, handing out owned copies.
    pub fn iter_cols(&mut self) -> (r: Vec<Vec<u8>>)
        requires
            old(self).wf(),
        ensures
            final(self).wf(),
            r@.map_values(|v: Vec<u8>| v@) == spec_all_cols(old(self).spec_state(), old(self).spec_separator()).0,
            final(self).spec_state() == spec_all_cols(old(self).spec_state(), old(self).spec_separator()).1,
            !final(self).spec_fresh(),
            final(self).spec_col() == old(self).spec_col() + r@.len(),
            final(self).spec_line() == old(self).spec_line(),
            final(self).spec_indent_byte() == old(self).spec_indent_byte(),
            final(self).spec_separator() == old(self).spec_separator(),
    {
        let mut out: Vec<Vec<u8>> = Vec::new();
        let ghost st0 = self.spec_state();
        let ghost col0 = self.spec_col();
        let ghost sep = self.spec_separator();
        loop
            invariant
                self.wf(),
                sep == old(self).spec_separator(),
                st0 == old(self).spec_state(),
                col0 == old(self).spec_col(),
                self.spec_separator() == sep,
                self.spec_indent_byte() == old(self).spec_indent_byte(),
                self.spec_line() == old(self).spec_line(),
                self.spec_col() == col0 + out@.len(),
                ({
                    let (all, fin) = spec_all_cols(st0, sep);
                    let (rest, fin2) = spec_all_cols(self.spec_state(), sep);
                    &&& all == out@.map_values(|v: Vec<u8>| v@) + rest
                    &&& fin == fin2
                }),
            decreases line_potential(self.spec_state()),
        {
            let ghost before = self.spec_state();
            let ghost out_before = out@;
            proof {
                lemma_read_col_progress(before, sep);
            }
            let c = self.read_col();
            match c {
                Some(m) => {
                    let v = vstd::slice::slice_to_vec(m.as_short());
                    out.push(v);
                    proof {
                        assert(out@.map_values(|v: Vec<u8>| v@) == out_before.map_values(
                            |v: Vec<u8>| v@,
                        ) + seq![v@]);
                    }
                },
                None => {
                    return out;
                },
            }
        }
    }
}

/// The bytes of an optional owned column.
pub open spec fn opt_view_vec(o: Option<Vec<u8>>) -> Option<Seq<u8>> {
    match o {
        Some(v) => Some(v@),
        None => None,
    }
}

/// Bytes that are either owned or borrowed for the input's lifetime.
#[derive(Debug)]
pub enum SmolCowStr<'a> {
    /// The owned variant.
    Owned(Vec<u8>),
    /// The borrowed variant.
    Borrowed(&'a [u8]),
}

impl<'a> SmolCowStr<'a> {
    /// The bytes, whichever variant holds them.
    pub open spec fn value(&self) -> Seq<u8> {
        match self {
            SmolCowStr::Owned(v) => v@,
            SmolCowStr::Borrowed(b) => b@,
        }
    }

    /// Returns the borrowed bytes if it is the borrowed variant.
    pub fn as_borrowed(&self) -> (r: Option<&'a [u8]>)
        ensures
            match self {
                SmolCowStr::Owned(_) => r is None,
                SmolCowStr::Borrowed(b) => r == Some(*b),
            },
    {
        match self {
            SmolCowStr::Owned(_) => None,
            SmolCowStr::Borrowed(b) => Some(*b),
        }
    }

    /// The bytes, whichever variant holds them.
    pub fn as_bytes(&self) -> (r: &[u8])
        ensures
            r@ == self.value(),
    {
        match self {
            SmolCowStr::Owned(v) => v.as_slice(),
            SmolCowStr::Borrowed(b) => b,
        }
    }

    /// Keeps a borrowed reference borrowed, and copies a temporary one.
    pub fn into_vec(self) -> (r: Vec<u8>)
        ensures
            r@ == self.value(),
    {
        match self {
            SmolCowStr::Owned(v) => v,
            SmolCowStr::Borrowed(b) => vstd::slice::slice_to_vec(b),
        }
    }

    /// Bytes borrowed for the input's lifetime stay borrowed; others are copied.
    pub fn from_maybe(m: MaybeBorrowed<'_, 'a, [u8]>) -> (r: SmolCowStr<'a>)
        ensures
            r.value() == m.value()@,
            (r is Borrowed) == (m is Borrowed),
    {
        match m {
            MaybeBorrowed::Short(s) => SmolCowStr::Owned(vstd::slice::slice_to_vec(s)),
            MaybeBorrowed::Borrowed(b) => SmolCowStr::Borrowed(b),
        }
    }
}

} // verus!
