//! Reading mapping files line by line from a byte slice: columns of a line, and
//! finding the next line at a given indentation depth.
use vstd::prelude::*;
use crate::bytes::{find_byte, lemma_find_byte, leading_count, lemma_leading_count_bound};
use crate::io::{
    adapter_next_line, col_state_bounded, eof_line, line_content, line_potential, opt_bytes,
    skip_blank_lines, slice_chunk, slice_rest_after, spec_all_cols, spec_read_col, spec_read_cols,
    ColState, ColumnReadAdapter, ColumnReader, ColumnRead, Read, SliceReader, ReadState,
};

verus! {

/// Column reading over a borrowed slice.
pub type SliceAdapter<'de> = ColumnReadAdapter<SliceReader<'de>>;

/// Line and column reading over a borrowed slice.
pub type LineReader<'de> = ColumnReader<SliceAdapter<'de>>;

/// `next_line` over a slice: `None` once no byte is left; otherwise the next `\n`-terminated
/// chunk, which may be an empty line, becomes the current line.
pub open spec fn slice_next_line(st: ColState, indent: u8) -> (Option<usize>, ColState) {
    let chunk = slice_chunk(st.rest, 0x0au8);
    let rest = slice_rest_after(st.rest, 0x0au8);
    if st.rest.len() == 0 {
        (None, ColState { rest, line: eof_line(st.line), indent: st.indent, last_col: None })
    } else {
        let count = leading_count(chunk, indent) as usize;
        (
            Some(count),
            ColState {
                rest,
                line: Some(line_content(chunk, indent)),
                indent: Some(count),
                last_col: None,
            },
        )
    }
}

/// Lines are read until one with content stands; gives its indentation, the state, and
/// how many lines were read.
pub open spec fn slice_skip_blank(st: ColState, indent: u8) -> (Option<usize>, ColState, nat)
    decreases st.rest.len(),
{
    let (r, st2) = slice_next_line(st, indent);
    match r {
        None => (None, st2, 0),
        Some(i) => if st2.line matches Some(l) && l.len() > 0 {
            (Some(i), st2, 1)
        } else if st2.rest.len() < st.rest.len() {
            let (r3, st3, n) = slice_skip_blank(st2, indent);
            (r3, st3, n + 1)
        } else {
            (None, st2, 1)
        },
    }
}

pub proof fn lemma_skip_slice<'de>(st: ColState, indent: u8) where 'de: 'de
    ensures
        skip_blank_lines::<'de, SliceAdapter<'de>>(st, indent) == slice_skip_blank(st, indent),
    decreases st.rest.len(),
{
    let (r, st2) = slice_next_line(st, indent);
    assert(<SliceAdapter<'de> as ColumnRead<'de>>::spec_next_line(st, indent) == (r, st2));
    if let Some(i) = r {
        if !(st2.line matches Some(l) && l.len() > 0) && st2.rest.len() < st.rest.len() {
            lemma_skip_slice::<'de>(st2, indent);
        }
    }
}

/// A slice read makes progress exactly when it hands out bytes or finds a separator.
pub proof fn lemma_slice_progress(rest: Seq<u8>, sep: u8)
    ensures
        slice_rest_after(rest, sep).len() <= rest.len(),
        slice_chunk(rest, sep).len() <= rest.len(),
        rest.len() > 0 ==> slice_rest_after(rest, sep).len() < rest.len(),
        rest.len() == 0 ==> slice_chunk(rest, sep).len() == 0 && slice_rest_after(rest, sep).len() == 0,
{
    lemma_find_byte(rest, sep);
}

/// Where a line reader stands: its column state, and whether the current line is untouched.
pub ghost struct Pos {
    pub st: ColState,
    pub fresh: bool,
}

/// Decreases with every line taken.
pub open spec fn measure(p: Pos) -> nat {
    2 * p.st.rest.len() + (if p.fresh {
        1nat
    } else {
        0nat
    })
}

/// Where a line reader stands.
pub open spec fn pos_of<'de>(r: LineReader<'de>) -> Pos {
    Pos { st: r.spec_state(), fresh: r.spec_fresh() }
}

/// A reader consistent with the given indentation byte and column separator.
pub open spec fn reader_ok<'de>(r: LineReader<'de>, indent: u8, sep: u8) -> bool {
    &&& r.wf()
    &&& r.spec_indent_byte() == indent
    &&& r.spec_separator() == sep
}

/// The state after the next non-blank line, as `Pos`.
pub open spec fn next_pos(p: Pos, indent: u8) -> (Option<usize>, Pos) {
    let (r, st2, n) = slice_skip_blank(p.st, indent);
    (r, Pos { st: st2, fresh: if n > 0 {
        true
    } else {
        p.fresh
    } })
}

/// Whether the current line starts with `#`.
pub open spec fn hash_line(st: ColState) -> bool {
    st.line matches Some(l) && l.len() > 0 && l[0] == 0x23u8
}

/// Finding the next line at depth `k` when the current line is consumed: lines deeper than
/// `k` are passed over (and lines starting with `#` when `skip_hash`); a shallower line or the
/// end of input stops the search.
pub open spec fn fetch_loop(p: Pos, k: usize, indent: u8, skip_hash: bool) -> (bool, Pos)
    decreases p.st.rest.len(),
{
    let (r, p2) = next_pos(p, indent);
    match r {
        None => (false, p2),
        Some(i) => if skip_hash && hash_line(p2.st) {
            if p2.st.rest.len() < p.st.rest.len() {
                fetch_loop(p2, k, indent, skip_hash)
            } else {
                (false, p2)
            }
        } else if i < k {
            (false, p2)
        } else if i > k {
            if p2.st.rest.len() < p.st.rest.len() {
                fetch_loop(p2, k, indent, skip_hash)
            } else {
                (false, p2)
            }
        } else {
            (true, p2)
        },
    }
}

/// Finding the line of the next item at depth `k`: an untouched current line is the candidate
/// itself; otherwise the search of `fetch_loop` runs.
pub open spec fn fetch(p: Pos, k: usize, indent: u8, skip_hash: bool) -> (bool, Pos) {
    if p.fresh {
        (p.st.indent == Some(k) && !(skip_hash && hash_line(p.st)), p)
    } else {
        fetch_loop(p, k, indent, skip_hash)
    }
}

pub proof fn lemma_skip_progress(st: ColState, indent: u8)
    ensures
        slice_skip_blank(st, indent).1.rest.len() <= st.rest.len(),
        slice_skip_blank(st, indent).0 is Some ==> slice_skip_blank(st, indent).1.rest.len()
            < st.rest.len(),
        slice_skip_blank(st, indent).2 > 0 ==> slice_skip_blank(st, indent).1.rest.len()
            < st.rest.len(),
        slice_skip_blank(st, indent).0 is Some ==> (slice_skip_blank(st, indent).1.line matches Some(
            l,
        ) && l.len() > 0),
    decreases st.rest.len(),
{
    lemma_slice_progress(st.rest, 0x0au8);
    let (r, st2) = slice_next_line(st, indent);
    if let Some(i) = r {
        if !(st2.line matches Some(l) && l.len() > 0) && st2.rest.len() < st.rest.len() {
            lemma_skip_progress(st2, indent);
        }
    }
}

pub proof fn lemma_fetch_measure(p: Pos, k: usize, indent: u8, skip_hash: bool)
    ensures
        measure(fetch(p, k, indent, skip_hash).1) <= measure(p) + 1,
        !p.fresh ==> measure(fetch(p, k, indent, skip_hash).1) <= measure(p) + 1,
        fetch(p, k, indent, skip_hash).0 ==> fetch(p, k, indent, skip_hash).1.fresh
            && fetch(p, k, indent, skip_hash).1.st.rest.len() <= p.st.rest.len() && (
        !p.fresh ==> fetch(p, k, indent, skip_hash).1.st.rest.len() < p.st.rest.len()),
        fetch(p, k, indent, skip_hash).1.st.rest.len() <= p.st.rest.len(),
{
    if !p.fresh {
        lemma_fetch_loop_measure(p, k, indent, skip_hash);
    }
}

pub proof fn lemma_fetch_loop_measure(p: Pos, k: usize, indent: u8, skip_hash: bool)
    ensures
        fetch_loop(p, k, indent, skip_hash).1.st.rest.len() <= p.st.rest.len(),
        fetch_loop(p, k, indent, skip_hash).0 ==> fetch_loop(p, k, indent, skip_hash).1.fresh
            && fetch_loop(p, k, indent, skip_hash).1.st.rest.len() < p.st.rest.len(),
        !fetch_loop(p, k, indent, skip_hash).1.fresh ==> fetch_loop(p, k, indent, skip_hash).1.fresh == p.fresh,
    decreases p.st.rest.len(),
{
    lemma_skip_progress(p.st, indent);
    let (r, p2) = next_pos(p, indent);
    if let Some(i) = r {
        if (skip_hash && hash_line(p2.st)) || i > k {
            if p2.st.rest.len() < p.st.rest.len() {
                lemma_fetch_loop_measure(p2, k, indent, skip_hash);
            }
        }
    }
}

/// Jumps to the next line with content, as `next_pos` describes.
pub fn next_pos_line<'de>(read: &mut LineReader<'de>) -> (r: Option<usize>)
    requires
        old(read).wf(),
    ensures
        final(read).wf(),
        final(read).spec_indent_byte() == old(read).spec_indent_byte(),
        final(read).spec_separator() == old(read).spec_separator(),
        (r, pos_of(*final(read))) == next_pos(pos_of(*old(read)), old(read).spec_indent_byte()),
{
    proof {
        lemma_skip_slice::<'de>(old(read).spec_state(), old(read).spec_indent_byte());
    }
    read.next_line()
}

/// Finds the line of the next item at depth `k`, as `fetch` describes.
pub fn fetch_line<'de>(read: &mut LineReader<'de>, k: usize, skip_hash: bool) -> (r: bool)
    requires
        old(read).wf(),
    ensures
        final(read).wf(),
        final(read).spec_indent_byte() == old(read).spec_indent_byte(),
        final(read).spec_separator() == old(read).spec_separator(),
        (r, pos_of(*final(read))) == fetch(
            pos_of(*old(read)),
            k,
            old(read).spec_indent_byte(),
            skip_hash,
        ),
{
    if read.is_fresh_line() {
        let ind = read.this_indent();
        let hashed = match read.this_line() {
            Some(l) => {
                let b: &[u8] = l.as_short();
                b.len() > 0 && b[0] == 0x23u8
            },
            None => false,
        };
        let ok = match ind {
            Some(i) => i == k,
            None => false,
        };
        return ok && !(skip_hash && hashed);
    }
    let ghost ib = read.spec_indent_byte();
    let ghost p0 = pos_of(*read);
    loop
        invariant
            read.wf(),
            read.spec_indent_byte() == ib,
            ib == old(read).spec_indent_byte(),
            read.spec_separator() == old(read).spec_separator(),
            p0 == pos_of(*old(read)),
            !p0.fresh,
            fetch(p0, k, ib, skip_hash) == fetch_loop(pos_of(*read), k, ib, skip_hash),
        decreases read.spec_state().rest.len(),
    {
        let ghost before = pos_of(*read);
        proof {
            lemma_skip_progress(before.st, ib);
        }
        let i = match next_pos_line(read) {
            None => {
                return false;
            },
            Some(i) => i,
        };
        let hashed = match read.this_line() {
            Some(l) => {
                let b: &[u8] = l.as_short();
                b.len() > 0 && b[0] == 0x23u8
            },
            None => false,
        };
        if skip_hash && hashed {
            continue;
        }
        if i < k {
            return false;
        } else if i > k {
            continue;
        } else {
            return true;
        }
    }
}

/// The columns of a line split at `sep`; an empty rest gives no further column.
pub open spec fn split_cols(l: Seq<u8>, sep: u8) -> Seq<Seq<u8>>
    decreases l.len(),
{
    if l.len() == 0 {
        Seq::empty()
    } else {
        match find_byte(l, sep) {
            Some(i) => if 0 <= i < l.len() {
                seq![l.subrange(0, i)] + split_cols(l.subrange(i + 1, l.len() as int), sep)
            } else {
                seq![l]
            },
            None => seq![l],
        }
    }
}

/// The columns left on the current line.
pub open spec fn cols_of(st: ColState, sep: u8) -> Seq<Seq<u8>> {
    match st.line {
        Some(l) => split_cols(l, sep),
        None => Seq::empty(),
    }
}

/// The column at index `i`, if there is one.
pub open spec fn col_at(cols: Seq<Seq<u8>>, i: int) -> Option<Seq<u8>> {
    if 0 <= i < cols.len() {
        Some(cols[i])
    } else {
        None
    }
}

pub proof fn lemma_read_col_cols(st: ColState, sep: u8)
    ensures
        ({
            let (c, st2) = spec_read_col(st, sep);
            let cols = cols_of(st, sep);
            &&& c == col_at(cols, 0)
            &&& cols_of(st2, sep) == (if c is Some {
                cols.drop_first()
            } else {
                cols
            })
            &&& st2.rest == st.rest
            &&& st2.indent == st.indent
            &&& (c is None ==> st2 == st)
        }),
{
    if let Some(l) = st.line {
        lemma_find_byte(l, sep);
        if l.len() > 0 {
            match find_byte(l, sep) {
                Some(i) => {
                    assert(split_cols(l, sep) == seq![l.subrange(0, i)] + split_cols(
                        l.subrange(i + 1, l.len() as int),
                        sep,
                    ));
                    assert(split_cols(l, sep).drop_first() == split_cols(
                        l.subrange(i + 1, l.len() as int),
                        sep,
                    ));
                },
                None => {
                },
            }
        }
    }
}

pub proof fn lemma_read_cols_cols(st: ColState, sep: u8, n: nat)
    ensures
        ({
            let (cs, st2) = spec_read_cols(st, sep, n);
            let cols = cols_of(st, sep);
            &&& cs.len() == n
            &&& forall|i: int| 0 <= i < n ==> #[trigger] cs[i] == col_at(cols, i)
            &&& cols_of(st2, sep) == (if n <= cols.len() {
                cols.subrange(n as int, cols.len() as int)
            } else {
                Seq::empty()
            })
            &&& st2.rest == st.rest
            &&& st2.indent == st.indent
        }),
    decreases n,
{
    if n > 0 {
        lemma_read_col_cols(st, sep);
        let (c, st1) = spec_read_col(st, sep);
        lemma_read_cols_cols(st1, sep, (n - 1) as nat);
        let (cs, st2) = spec_read_cols(st, sep, n);
        let (cs1, _) = spec_read_cols(st1, sep, (n - 1) as nat);
        let cols = cols_of(st, sep);
        assert forall|i: int| 0 <= i < n implies #[trigger] cs[i] == col_at(cols, i) by {
            if i > 0 {
                assert(cs[i] == cs1[i - 1]);
            }
        }
        if cols.len() == 0 {
            assert(cols_of(st1, sep) == cols);
        }
    } else {
        let cols = cols_of(st, sep);
        assert(cols.subrange(0, cols.len() as int) == cols);
    }
}

pub proof fn lemma_all_cols_cols(st: ColState, sep: u8)
    ensures
        spec_all_cols(st, sep).0 == cols_of(st, sep),
        cols_of(spec_all_cols(st, sep).1, sep).len() == 0,
        spec_all_cols(st, sep).1.rest == st.rest,
        spec_all_cols(st, sep).1.indent == st.indent,
    decreases line_potential(st),
{
    lemma_read_col_cols(st, sep);
    crate::io::lemma_read_col_progress(st, sep);
    let (c, st2) = spec_read_col(st, sep);
    if let Some(col) = c {
        lemma_all_cols_cols(st2, sep);
        assert(cols_of(st, sep) == seq![col] + cols_of(st2, sep));
    }
}

pub proof fn lemma_fetch_loop_le(p: Pos, k: usize, indent: u8, skip_hash: bool)
    ensures
        measure(fetch_loop(p, k, indent, skip_hash).1) <= measure(p),
        fetch_loop(p, k, indent, skip_hash).0 ==> fetch_loop(p, k, indent, skip_hash).1.st.rest.len()
            < p.st.rest.len(),
    decreases p.st.rest.len(),
{
    lemma_skip_progress(p.st, indent);
    let (r, p2) = next_pos(p, indent);
    if let Some(i) = r {
        if (skip_hash && hash_line(p2.st)) || i > k {
            if p2.st.rest.len() < p.st.rest.len() {
                lemma_fetch_loop_le(p2, k, indent, skip_hash);
            }
        }
    }
}

/// Finding a line never moves the reader back, and taking one moves it forward.
pub proof fn lemma_fetch_le(p: Pos, k: usize, indent: u8, skip_hash: bool)
    ensures
        measure(fetch(p, k, indent, skip_hash).1) <= measure(p),
        fetch(p, k, indent, skip_hash).0 ==> measure(
            Pos { st: fetch(p, k, indent, skip_hash).1.st, fresh: false },
        ) < measure(p),
{
    if !p.fresh {
        lemma_fetch_loop_le(p, k, indent, skip_hash);
    }
}

pub proof fn lemma_skip_indent(st: ColState, indent: u8)
    ensures
        slice_skip_blank(st, indent).0 matches Some(i) ==> slice_skip_blank(st, indent).1.indent
            == Some(i),
    decreases st.rest.len(),
{
    let (r, st2) = slice_next_line(st, indent);
    if let Some(i) = r {
        if !(st2.line matches Some(l) && l.len() > 0) && st2.rest.len() < st.rest.len() {
            lemma_skip_indent(st2, indent);
        }
    }
}

pub proof fn lemma_fetch_loop_indent(p: Pos, k: usize, indent: u8, skip_hash: bool)
    ensures
        fetch_loop(p, k, indent, skip_hash).0 ==> fetch_loop(p, k, indent, skip_hash).1.st.indent
            == Some(k),
    decreases p.st.rest.len(),
{
    lemma_skip_indent(p.st, indent);
    let (r, p2) = next_pos(p, indent);
    if let Some(i) = r {
        if (skip_hash && hash_line(p2.st)) || i > k {
            if p2.st.rest.len() < p.st.rest.len() {
                lemma_fetch_loop_indent(p2, k, indent, skip_hash);
            }
        }
    }
}

/// A line taken at depth `k` is indented `k` deep.
pub proof fn lemma_fetch_indent(p: Pos, k: usize, indent: u8, skip_hash: bool)
    ensures
        fetch(p, k, indent, skip_hash).0 ==> fetch(p, k, indent, skip_hash).1.st.indent == Some(k),
{
    if !p.fresh {
        lemma_fetch_loop_indent(p, k, indent, skip_hash);
    }
}

} // verus!
