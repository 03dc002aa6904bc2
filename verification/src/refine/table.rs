//! Table shape normalization.
//!
//! Two stages, run in order.
//!
//! **[`recover_missing_separators`]: heuristic, conservative.** The GFM table
//! extension only recognizes a `|`-delimited block as a table when the line
//! right after the header is a delimiter row. Extraction can drop that row
//! while every data row stays intact; without it the whole block parses as a
//! plain paragraph. This text-level pre-pass re-inserts it where the shape
//! says a table starts.
//!
//! **[`widen_ragged_tables`]: exact, parser-driven.** The parser silently
//! drops any cell beyond the header's column count while parsing an
//! already-well-formed table. This stage runs the real parser over the first
//! stage's output, reads back the byte ranges it recognized as table rows, and
//! widens each ragged table's header and separator line with empty cells to
//! the widest row present, so no row is ever excess relative to its header.

use pulldown_cmark::{Event, Options, Parser, Tag, TagEnd};
use vstd::prelude::*;
use vstd::slice::slice_subrange;
use vstd::slice::slice_to_vec;

use crate::text::{
    lemma_concat_append, lemma_concat_prepend, trim_end, chars_of, concat, contains_seq, contains_slice, ends_with, is_ws, lemma_concat_take, lines,
    push_chars, seqs_of, split_lines, starts_with, string_of, trim, trim_newlines_end,
    trim_newlines_end_slice, trim_slice, trim_start, trim_start_slice,
};

verus! {

/// A line without its terminator (`trim_end_matches(['\n', '\r'])`).
pub open spec fn trim_terminator(line: Seq<char>) -> Seq<char> {
    trim_newlines_end(line)
}

/// The line terminator `line` ends with: `\r\n`, `\n`, or nothing.
pub open spec fn line_terminator(line: Seq<char>) -> Seq<char> {
    if ends_with(line, seq!['\r', '\n']) {
        seq!['\r', '\n']
    } else if ends_with(line, seq!['\n']) {
        seq!['\n']
    } else {
        seq![]
    }
}

/// Whether `text` opens or closes a fenced code block (` ``` ` or `~~~`,
/// after any indentation).
pub open spec fn is_fence_delimiter(text: Seq<char>) -> bool {
    let t = trim_start(text);
    starts_with(t, seq!['`', '`', '`']) || starts_with(t, seq!['~', '~', '~'])
}

/// The number of consecutive backslashes immediately before position `p`.
pub open spec fn backslash_run(text: Seq<char>, p: int) -> nat
    decreases p,
{
    if p <= 0 || p > text.len() {
        0
    } else if text[p - 1] == '\\' {
        1 + backslash_run(text, p - 1)
    } else {
        0
    }
}

/// Whether position `p` holds an unescaped `|`: one preceded by an even
/// number of backslashes, matching CommonMark's escaping rule.
pub open spec fn is_unescaped_pipe(text: Seq<char>, p: int) -> bool {
    0 <= p < text.len() && text[p] == '|' && backslash_run(text, p) % 2 == 0
}

/// The pieces of `text[start..]` between unescaped pipes, scanning from `p`.
pub open spec fn split_pipes_from(text: Seq<char>, start: int, p: int) -> Seq<Seq<char>>
    decreases text.len() - p,
{
    if p >= text.len() {
        seq![text.subrange(start, text.len() as int)]
    } else if is_unescaped_pipe(text, p) {
        seq![text.subrange(start, p)] + split_pipes_from(text, p + 1, p + 1)
    } else {
        split_pipes_from(text, start, p + 1)
    }
}

/// `text` split on its unescaped `|` characters.
pub open spec fn split_unescaped_pipes(text: Seq<char>) -> Seq<Seq<char>> {
    split_pipes_from(text, 0, 0)
}

/// The cells of a pipe row: the pieces between unescaped pipes of the trimmed
/// line, without one empty leading and one empty trailing piece (the "outer"
/// pipes), each trimmed. `None` when the line has no unescaped interior pipe,
/// so it is not table-row-shaped.
pub open spec fn split_cells(text: Seq<char>) -> Option<Seq<Seq<char>>> {
    let parts = split_unescaped_pipes(trim(text));
    if parts.len() < 2 {
        None
    } else {
        let a = if parts[0].len() == 0 {
            parts.drop_first()
        } else {
            parts
        };
        let b = if a.len() > 0 && a.last().len() == 0 {
            a.drop_last()
        } else {
            a
        };
        if b.len() == 0 {
            None
        } else {
            Some(Seq::new(b.len(), |i: int| trim(b[i])))
        }
    }
}

/// The number of cells of a pipe row, or `None` for a line that is not one.
pub open spec fn pipe_row_cell_count(text: Seq<char>) -> Option<nat> {
    match split_cells(text) {
        Some(cells) => Some(cells.len()),
        None => None,
    }
}

/// `cell` without one leading `:`.
pub open spec fn strip_colon_prefix(cell: Seq<char>) -> Seq<char> {
    if cell.len() > 0 && cell[0] == ':' {
        cell.drop_first()
    } else {
        cell
    }
}

/// `cell` without one trailing `:`.
pub open spec fn strip_colon_suffix(cell: Seq<char>) -> Seq<char> {
    if cell.len() > 0 && cell.last() == ':' {
        cell.drop_last()
    } else {
        cell
    }
}

pub open spec fn all_dashes(s: Seq<char>) -> bool {
    forall|i: int| 0 <= i < s.len() ==> s[i] == '-'
}

/// A delimiter cell: dashes, optionally with a leading and/or trailing `:`.
pub open spec fn is_delimiter_cell(cell: Seq<char>) -> bool {
    let core = strip_colon_suffix(strip_colon_prefix(cell));
    core.len() > 0 && all_dashes(core)
}

/// A delimiter row: a pipe row all of whose cells are delimiter cells.
pub open spec fn is_delimiter_row(text: Seq<char>) -> bool {
    match split_cells(text) {
        Some(cells) => cells.len() > 0 && forall|i: int|
            0 <= i < cells.len() ==> is_delimiter_cell(cells[i]),
        None => false,
    }
}

/// Whether `text` holds a literal escaped pipe `\|`: a sign of prose a
/// serializer already escaped, never of raw table input.
pub open spec fn contains_escaped_pipe(text: Seq<char>) -> bool {
    contains_seq(text, seq!['\\', '|'])
}

/// `---` cells joined by ` | `, `n` of them.
pub open spec fn separator_cells(n: nat) -> Seq<char>
    decreases n,
{
    if n == 0 {
        seq![]
    } else if n == 1 {
        seq!['-', '-', '-']
    } else {
        separator_cells((n - 1) as nat) + seq![' ', '|', ' ', '-', '-', '-']
    }
}

/// A delimiter row of `n` cells ending with `terminator`.
pub open spec fn synthetic_separator(n: nat, terminator: Seq<char>) -> Seq<char> {
    seq!['|', ' '] + separator_cells(n) + seq![' ', '|'] + terminator
}

/// Whether line `l` is pipe-row-shaped.
pub open spec fn is_pipe_row_line(l: Seq<char>) -> bool {
    pipe_row_cell_count(trim_terminator(l)) is Some
}

/// The index just past the contiguous run of pipe-row lines starting at `j`.
pub open spec fn body_end(ls: Seq<Seq<char>>, j: int) -> int
    decreases ls.len() - j,
{
    if 0 <= j < ls.len() && is_pipe_row_line(ls[j]) {
        body_end(ls, j + 1)
    } else {
        j
    }
}

/// The table body from `j` holds pipe rows only, up to a line that is not one.
pub proof fn lemma_body_end(ls: Seq<Seq<char>>, j: int)
    ensures
        body_end(ls, j) >= j,
        0 <= j <= ls.len() ==> body_end(ls, j) <= ls.len(),
        forall|t: int| j <= t < body_end(ls, j) ==> 0 <= t < ls.len() && is_pipe_row_line(ls[t]),
        0 <= body_end(ls, j) < ls.len() ==> !is_pipe_row_line(ls[body_end(ls, j)]),
    decreases ls.len() - j,
{
    if 0 <= j < ls.len() && is_pipe_row_line(ls[j]) {
        lemma_body_end(ls, j + 1);
    }
}

/// The concatenation of `ls[a..b]`.
pub open spec fn concat_range(ls: Seq<Seq<char>>, a: int, b: int) -> Seq<char> {
    concat(ls.subrange(a, b))
}

/// How the scan treats the line at `i` that is not inside a fence: whether a
/// real separator follows it, and whether a missing one may be synthesized.
pub open spec fn real_separator_follows(ls: Seq<Seq<char>>, i: int, h: nat) -> bool {
    i + 1 < ls.len() && pipe_row_cell_count(trim_terminator(ls[i + 1])) == Some(h)
        && is_delimiter_row(trim_terminator(ls[i + 1]))
}

pub open spec fn may_synthesize(ls: Seq<Seq<char>>, i: int, h: nat, at_boundary: bool) -> bool {
    let text = trim_terminator(ls[i]);
    &&& i + 1 < ls.len()
    &&& pipe_row_cell_count(trim_terminator(ls[i + 1])) == Some(h)
    &&& !is_delimiter_row(trim_terminator(ls[i + 1]))
    &&& at_boundary
    &&& h >= 2
    &&& !is_delimiter_row(text)
    &&& !contains_escaped_pipe(text)
    &&& !contains_escaped_pipe(trim_terminator(ls[i + 1]))
}

/// The output of [`recover_missing_separators`] for the lines `ls[i..]`,
/// entered with the given fence and blank-line state.
///
/// A line toggles the fence when it is a fence delimiter; lines inside a fence
/// are copied. Outside a fence, a pipe row with a matching delimiter row after
/// it starts a table; so does a pipe row of at least two cells followed by a
/// same-width non-delimiter row, when it opens a new block (after a blank line,
/// the start, or a closed fence) and neither line carries an escaped pipe; in
/// that case a `---` delimiter row is inserted after it. A table's body, the
/// contiguous run of pipe rows that follows, is copied verbatim.
pub open spec fn recover_from(ls: Seq<Seq<char>>, i: int, in_fence: bool, prev_blank: bool) -> Seq<
    char,
>
    decreases ls.len() - i,
{
    if i < 0 || i >= ls.len() {
        seq![]
    } else {
        let raw = ls[i];
        let text = trim_terminator(raw);
        let blank = trim(text).len() == 0;
        if is_fence_delimiter(text) {
            raw + recover_from(ls, i + 1, !in_fence, if in_fence { true } else { blank })
        } else if in_fence {
            raw + recover_from(ls, i + 1, in_fence, blank)
        } else {
            match pipe_row_cell_count(text) {
                None => raw + recover_from(ls, i + 1, false, blank),
                Some(h) => {
                    if real_separator_follows(ls, i, h) {
                        let e = body_end(ls, i + 2);
                        proof {
                            lemma_body_end(ls, i + 2);
                        }
                        raw + ls[i + 1] + concat_range(ls, i + 2, e) + recover_from(
                            ls,
                            e,
                            false,
                            false,
                        )
                    } else if may_synthesize(ls, i, h, prev_blank) {
                        let e = body_end(ls, i + 1);
                        proof {
                            lemma_body_end(ls, i + 1);
                        }
                        raw + synthetic_separator(h, line_terminator(raw)) + concat_range(
                            ls,
                            i + 1,
                            e,
                        ) + recover_from(ls, e, false, false)
                    } else {
                        raw + recover_from(ls, i + 1, false, blank)
                    }
                },
            }
        }
    }
}

/// What [`recover_missing_separators`] returns for `content`.
pub open spec fn recover_spec(content: Seq<char>) -> Seq<char> {
    recover_from(lines(content), 0, false, true)
}

fn split_unescaped_pipes_exec(text: &[char]) -> (r: Vec<Vec<char>>)
    ensures
        seqs_of(r@) == split_unescaped_pipes(text@),
{
    let mut parts: Vec<Vec<char>> = Vec::new();
    let mut start: usize = 0;
    let mut backslashes: usize = 0;
    let mut idx: usize = 0;
    while idx < text.len()
        invariant
            0 <= start <= idx <= text@.len(),
            backslashes == backslash_run(text@, idx as int),
            backslashes <= idx,
            split_unescaped_pipes(text@) == seqs_of(parts@) + split_pipes_from(
                text@,
                start as int,
                idx as int,
            ),
        decreases text@.len() - idx,
    {
        let b = text[idx];
        if b == '\\' {
            backslashes = backslashes + 1;
            idx = idx + 1;
            continue;
        }
        if b == '|' && backslashes % 2 == 0 {
            let ghost old_parts = parts@;
            let piece = slice_to_vec(slice_subrange(text, start, idx));
            parts.push(piece);
            assert(seqs_of(parts@) =~= seqs_of(old_parts).push(piece@));
            assert(seqs_of(old_parts) + (seq![piece@] + split_pipes_from(
                text@,
                idx + 1,
                idx + 1,
            )) =~= seqs_of(parts@) + split_pipes_from(text@, idx + 1, idx + 1));
            start = idx + 1;
        }
        backslashes = 0;
        idx = idx + 1;
    }
    let ghost old_parts = parts@;
    let piece = slice_to_vec(slice_subrange(text, start, text.len()));
    parts.push(piece);
    assert(seqs_of(parts@) =~= seqs_of(old_parts).push(piece@));
    parts
}

proof fn lemma_split_pipes_nonempty(text: Seq<char>, start: int, p: int)
    requires
        0 <= start <= p <= text.len(),
    ensures
        split_pipes_from(text, start, p).len() >= 1,
    decreases text.len() - p,
{
    if p < text.len() {
        if is_unescaped_pipe(text, p) {
            lemma_split_pipes_nonempty(text, p + 1, p + 1);
        } else {
            lemma_split_pipes_nonempty(text, start, p + 1);
        }
    }
}

fn split_cells_exec(text: &[char]) -> (r: Option<Vec<Vec<char>>>)
    ensures
        match r {
            None => split_cells(text@) is None,
            Some(cells) => split_cells(text@) == Some(seqs_of(cells@)),
        },
{
    let tt = trim_slice(text);
    let mut parts = split_unescaped_pipes_exec(tt);
    if parts.len() < 2 {
        return None;
    }
    let ghost p0 = seqs_of(parts@);
    if parts[0].len() == 0 {
        parts.remove(0);
        assert(seqs_of(parts@) =~= p0.drop_first());
    }
    let ghost a = seqs_of(parts@);
    if parts.len() > 0 && parts[parts.len() - 1].len() == 0 {
        parts.pop();
        assert(seqs_of(parts@) =~= a.drop_last());
    }
    if parts.len() == 0 {
        return None;
    }
    let ghost b = seqs_of(parts@);
    let mut cells: Vec<Vec<char>> = Vec::new();
    let mut i: usize = 0;
    while i < parts.len()
        invariant
            b == seqs_of(parts@),
            0 <= i <= parts@.len(),
            seqs_of(cells@) == Seq::new(i as nat, |k: int| trim(b[k])),
        decreases parts@.len() - i,
    {
        let c = slice_to_vec(trim_slice(parts[i].as_slice()));
        let ghost old_cells = cells@;
        cells.push(c);
        assert(b[i as int] == parts@[i as int]@);
        assert(seqs_of(cells@) =~= seqs_of(old_cells).push(c@));
        assert(seqs_of(cells@) =~= Seq::new((i + 1) as nat, |k: int| trim(b[k])));
        i = i + 1;
    }
    Some(cells)
}

fn pipe_row_cell_count_exec(text: &[char]) -> (r: Option<usize>)
    ensures
        match r {
            None => pipe_row_cell_count(text@) is None,
            Some(n) => pipe_row_cell_count(text@) == Some(n as nat),
        },
{
    match split_cells_exec(text) {
        None => None,
        Some(cells) => Some(cells.len()),
    }
}

fn is_delimiter_cell_exec(cell: &[char]) -> (r: bool)
    ensures
        r == is_delimiter_cell(cell@),
{
    let a = if cell.len() > 0 && cell[0] == ':' {
        slice_subrange(cell, 1, cell.len())
    } else {
        cell
    };
    assert(a@ == strip_colon_prefix(cell@));
    let core = if a.len() > 0 && a[a.len() - 1] == ':' {
        slice_subrange(a, 0, a.len() - 1)
    } else {
        a
    };
    assert(core@ == strip_colon_suffix(a@));
    if core.len() == 0 {
        return false;
    }
    let mut i: usize = 0;
    while i < core.len()
        invariant
            0 <= i <= core@.len(),
            core@ == strip_colon_suffix(strip_colon_prefix(cell@)),
            forall|k: int| 0 <= k < i ==> core@[k] == '-',
        decreases core@.len() - i,
    {
        if core[i] != '-' {
            assert(core@[i as int] != '-');
            assert(!all_dashes(core@));
            assert(core@ == strip_colon_suffix(strip_colon_prefix(cell@)));
            return false;
        }
        i = i + 1;
    }
    true
}

fn is_delimiter_row_exec(text: &[char]) -> (r: bool)
    ensures
        r == is_delimiter_row(text@),
{
    match split_cells_exec(text) {
        None => false,
        Some(cells) => {
            if cells.len() == 0 {
                return false;
            }
            let ghost cs = seqs_of(cells@);
            let mut i: usize = 0;
            while i < cells.len()
                invariant
                    cs == seqs_of(cells@),
                    split_cells(text@) == Some(cs),
                    0 <= i <= cells@.len(),
                    forall|k: int| 0 <= k < i ==> is_delimiter_cell(cs[k]),
                decreases cells@.len() - i,
            {
                if !is_delimiter_cell_exec(cells[i].as_slice()) {
                    assert(!is_delimiter_cell(cs[i as int]));
                    assert(!(forall|k: int| 0 <= k < cs.len() ==> is_delimiter_cell(cs[k])));
                    return false;
                }
                i = i + 1;
            }
            true
        },
    }
}

fn contains_escaped_pipe_exec(text: &[char]) -> (r: bool)
    ensures
        r == contains_escaped_pipe(text@),
{
    let pat = vec!['\\', '|'];
    assert(pat@ =~= seq!['\\', '|']);
    contains_slice(text, pat.as_slice())
}

fn is_fence_delimiter_exec(text: &[char]) -> (r: bool)
    ensures
        r == is_fence_delimiter(text@),
{
    let t = trim_start_slice(text);
    let r = t.len() >= 3 && ((t[0] == '`' && t[1] == '`' && t[2] == '`') || (t[0] == '~' && t[1]
        == '~' && t[2] == '~'));
    proof {
        if t@.len() >= 3 {
            let s = t@.subrange(0, 3);
            assert(s[0] == t@[0] && s[1] == t@[1] && s[2] == t@[2]);
            if t@[0] == '`' && t@[1] == '`' && t@[2] == '`' {
                assert(s =~= seq!['`', '`', '`']);
            }
            if t@[0] == '~' && t@[1] == '~' && t@[2] == '~' {
                assert(s =~= seq!['~', '~', '~']);
            }
        }
    }
    r
}

fn line_terminator_exec(line: &[char]) -> (r: Vec<char>)
    ensures
        r@ == line_terminator(line@),
{
    let n = line.len();
    let mut out: Vec<char> = Vec::new();
    if n >= 2 && line[n - 2] == '\r' && line[n - 1] == '\n' {
        out.push('\r');
        out.push('\n');
        assert(line@.subrange(n - 2, n as int) =~= seq!['\r', '\n']);
        assert(out@ =~= seq!['\r', '\n']);
    } else if n >= 1 && line[n - 1] == '\n' {
        out.push('\n');
        assert(line@.subrange(n - 1, n as int) =~= seq!['\n']);
        proof {
            if ends_with(line@, seq!['\r', '\n']) {
                assert(line@.subrange(n - 2, n as int)[0] == line@[n - 2]);
            }
        }
        assert(out@ =~= seq!['\n']);
    } else {
        proof {
            if ends_with(line@, seq!['\r', '\n']) {
                assert(line@.subrange(n - 2, n as int)[1] == line@[n - 1]);
            }
            if ends_with(line@, seq!['\n']) {
                assert(line@.subrange(n - 1, n as int)[0] == line@[n - 1]);
            }
        }
        assert(out@ =~= Seq::<char>::empty());
    }
    out
}

fn synthetic_separator_exec(n: usize, terminator: &[char]) -> (r: Vec<char>)
    ensures
        r@ == synthetic_separator(n as nat, terminator@),
{
    let mut out: Vec<char> = Vec::new();
    out.push('|');
    out.push(' ');
    let ghost head = out@;
    let mut k: usize = 0;
    while k < n
        invariant
            0 <= k <= n,
            out@ == head + separator_cells(k as nat),
        decreases n - k,
    {
        if k > 0 {
            out.push(' ');
            out.push('|');
            out.push(' ');
        }
        out.push('-');
        out.push('-');
        out.push('-');
        k = k + 1;
        assert(out@ =~= head + separator_cells(k as nat));
    }
    out.push(' ');
    out.push('|');
    push_chars(&mut out, terminator);
    assert(out@ =~= seq!['|', ' '] + separator_cells(n as nat) + seq![' ', '|'] + terminator@);
    out
}

proof fn lemma_concat_range_step(ls: Seq<Seq<char>>, a: int, b: int)
    requires
        0 <= a <= b < ls.len(),
    ensures
        concat_range(ls, a, b + 1) == concat_range(ls, a, b) + ls[b],
{
    assert(ls.subrange(a, b + 1).drop_last() == ls.subrange(a, b));
    assert(ls.subrange(a, b + 1).last() == ls[b]);
}

/// Copies the contiguous run of pipe-row-shaped lines starting at `*i` into
/// `out` verbatim, advancing `*i` past them.
fn consume_pipe_row_body(lines: &Vec<Vec<char>>, i: &mut usize, out: &mut Vec<char>)
    requires
        *old(i) <= lines@.len(),
    ensures
        *final(i) == body_end(seqs_of(lines@), *old(i) as int),
        final(out)@ == old(out)@ + concat_range(seqs_of(lines@), *old(i) as int, *final(i) as int),
{
    let ghost ls = seqs_of(lines@);
    let ghost i0 = *i;
    let ghost out0 = out@;
    proof {
        lemma_body_end(ls, i0 as int);
        assert(ls.subrange(i0 as int, i0 as int) =~= Seq::<Seq<char>>::empty());
        assert(out@ =~= out0 + concat_range(ls, i0 as int, i0 as int));
    }
    while *i < lines.len() && pipe_row_cell_count_exec(trim_newlines_end_slice(lines[*i].as_slice())).is_some()
        invariant
            ls == seqs_of(lines@),
            i0 <= *i <= lines@.len(),
            body_end(ls, i0 as int) == body_end(ls, *i as int),
            out@ == out0 + concat_range(ls, i0 as int, *i as int),
        decreases lines@.len() - *i,
    {
        assert(lines@[*i as int]@ == ls[*i as int]);
        push_chars(out, lines[*i].as_slice());
        proof {
            lemma_concat_range_step(ls, i0 as int, *i as int);
        }
        *i = *i + 1;
    }
    proof {
        if *i < lines@.len() {
            assert(lines@[*i as int]@ == ls[*i as int]);
        }
    }
}

/// Recovers a missing GFM table delimiter row.
///
/// Fires where two consecutive non-blank lines both look like pipe-delimited
/// rows with the same cell count and neither is already a delimiter row, and
/// the candidate header line opens a new block (it is the first line of
/// `content`, or the line before it is blank, or the line before it closes a
/// fenced code block). Lines inside a fence are never touched. Once a table's
/// header (real or just-synthesized) is recognized, the entire contiguous run
/// of pipe rows that follows is copied verbatim as its body.
pub fn recover_missing_separators(content: &str) -> (r: String)
    ensures
        r@ == recover_spec(content@),
{
    let v = chars_of(content);
    let out = recover_missing_separators_chars(v.as_slice());
    string_of(out.as_slice())
}

/// Emits a recognized table starting at line `i`: its header, its real or
/// synthesized delimiter row, and its body.
fn emit_table(lines: &Vec<Vec<char>>, i: usize, header_cells: usize, has_sep: bool, out: &mut Vec<char>) -> (e: usize)
    requires
        i + 1 < lines@.len(),
    ensures
        i + 1 <= e <= lines@.len(),
        has_sep ==> e == body_end(seqs_of(lines@), i + 2) && final(out)@ == old(out)@ + (
        seqs_of(lines@)[i as int] + seqs_of(lines@)[i + 1] + concat_range(
            seqs_of(lines@),
            i + 2,
            e as int,
        )),
        !has_sep ==> e == body_end(seqs_of(lines@), i + 1) && final(out)@ == old(out)@ + (
        seqs_of(lines@)[i as int] + synthetic_separator(
            header_cells as nat,
            line_terminator(seqs_of(lines@)[i as int]),
        ) + concat_range(seqs_of(lines@), i + 1, e as int)),
{
    let ghost ls = seqs_of(lines@);
    let ghost out0 = out@;
    let n = lines.len();
    let raw = lines[i].as_slice();
    assert(raw@ == ls[i as int]);
    push_chars(out, raw);
    let mut j = i + 1;
    if has_sep {
        assert(lines@[j as int]@ == ls[j as int]);
        push_chars(out, lines[j].as_slice());
        j = j + 1;
    } else {
        let term = line_terminator_exec(raw);
        let sep = synthetic_separator_exec(header_cells, term.as_slice());
        push_chars(out, sep.as_slice());
    }
    let ghost body_start = j;
    let ghost out_mid = out@;
    consume_pipe_row_body(lines, &mut j, out);
    proof {
        lemma_body_end(ls, body_start as int);
    }
    assert(out@ =~= out_mid + concat_range(ls, body_start as int, j as int));
    j
}

/// One step of the scan in [`recover_missing_separators_chars`].
#[verifier::rlimit(40)]
fn recover_step(lines: &Vec<Vec<char>>, i: usize, in_fence: bool, prev_blank: bool, out: &mut Vec<char>) -> (res: (usize, bool, bool))
    requires
        i < lines@.len(),
    ensures
        i < res.0 <= lines@.len(),
        old(out)@ + recover_from(seqs_of(lines@), i as int, in_fence, prev_blank) == final(out)@
            + recover_from(seqs_of(lines@), res.0 as int, res.1, res.2),
{
    let ghost ls = seqs_of(lines@);
    let n = lines.len();
    let raw = lines[i].as_slice();
    assert(raw@ == ls[i as int]);
    let text = trim_newlines_end_slice(raw);
    let blank = trim_slice(text).len() == 0;
    let ghost out_before = out@;
    if is_fence_delimiter_exec(text) {
        push_chars(out, raw);
        let pb = if in_fence { true } else { blank };
        assert(out_before + recover_from(ls, i as int, in_fence, prev_blank) =~= out@
            + recover_from(ls, i + 1, !in_fence, pb));
        return (i + 1, !in_fence, pb);
    }
    if in_fence {
        push_chars(out, raw);
        assert(out_before + recover_from(ls, i as int, in_fence, prev_blank) =~= out@
            + recover_from(ls, i + 1, in_fence, blank));
        return (i + 1, in_fence, blank);
    }
    let header_cells = match pipe_row_cell_count_exec(text) {
        None => {
            push_chars(out, raw);
            assert(out_before + recover_from(ls, i as int, in_fence, prev_blank) =~= out@
                + recover_from(ls, i + 1, false, blank));
            return (i + 1, false, blank);
        },
        Some(h) => h,
    };
    let mut next_matches = false;
    let mut next_is_delimiter = false;
    let mut next_has_escape = false;
    if i + 1 < lines.len() {
        let next_text = trim_newlines_end_slice(lines[i + 1].as_slice());
        assert(lines@[i + 1]@ == ls[i + 1]);
        next_matches = match pipe_row_cell_count_exec(next_text) {
            Some(n) => n == header_cells,
            None => false,
        };
        next_is_delimiter = is_delimiter_row_exec(next_text);
        next_has_escape = contains_escaped_pipe_exec(next_text);
    }
    let has_real_separator = next_matches && next_is_delimiter;
    let can_synthesize = next_matches && !next_is_delimiter && prev_blank && header_cells >= 2
        && !is_delimiter_row_exec(text) && !contains_escaped_pipe_exec(text) && !next_has_escape;
    assert(has_real_separator == real_separator_follows(ls, i as int, header_cells as nat));
    assert(can_synthesize == may_synthesize(ls, i as int, header_cells as nat, prev_blank));
    if !has_real_separator && !can_synthesize {
        push_chars(out, raw);
        assert(out_before + recover_from(ls, i as int, in_fence, prev_blank) =~= out@
            + recover_from(ls, i + 1, false, blank));
        return (i + 1, false, blank);
    }
    let e = emit_table(lines, i, header_cells, has_real_separator, out);
    assert(out_before + recover_from(ls, i as int, in_fence, prev_blank) =~= out@ + recover_from(
        ls,
        e as int,
        false,
        false,
    ));
    (e, false, false)
}

/// [`recover_missing_separators`] over characters.
pub fn recover_missing_separators_chars(content: &[char]) -> (r: Vec<char>)
    ensures
        r@ == recover_spec(content@),
{
    let lines = split_lines(content);
    let ghost ls = seqs_of(lines@);
    let mut out: Vec<char> = Vec::new();
    let mut in_fence = false;
    let mut prev_blank = true;
    let mut i: usize = 0;
    assert(out@ + recover_from(ls, 0, false, true) =~= recover_from(ls, 0, false, true));
    while i < lines.len()
        invariant
            ls == seqs_of(lines@),
            ls == crate::text::lines(content@),
            0 <= i <= lines@.len(),
            recover_spec(content@) == out@ + recover_from(ls, i as int, in_fence, prev_blank),
        decreases lines@.len() - i,
    {
        let (ni, nf, nb) = recover_step(&lines, i, in_fence, prev_blank, &mut out);
        i = ni;
        in_fence = nf;
        prev_blank = nb;
    }
    assert(recover_from(ls, i as int, in_fence, prev_blank) == Seq::<char>::empty());
    assert(out@ + Seq::<char>::empty() == out@);
    out
}

/// One piece of the recovered text: a line of the input (`false`), or a
/// delimiter row the recovery inserted (`true`).
pub type Piece = (bool, Seq<char>);

/// The input lines `ls[a..b]`, as pieces.
pub open spec fn kept_range(ls: Seq<Seq<char>>, a: int, b: int) -> Seq<Piece> {
    Seq::new((b - a) as nat, |t: int| (false, ls[a + t]))
}

/// The pieces of [`recover_from`]'s output: the same scan, recording which
/// lines are the input's and which it inserted.
pub open spec fn recover_pieces_from(ls: Seq<Seq<char>>, i: int, in_fence: bool, prev_blank: bool) -> Seq<
    Piece,
>
    decreases ls.len() - i,
{
    if i < 0 || i >= ls.len() {
        seq![]
    } else {
        let raw = ls[i];
        let text = trim_terminator(raw);
        let blank = trim(text).len() == 0;
        if is_fence_delimiter(text) {
            seq![(false, raw)] + recover_pieces_from(
                ls,
                i + 1,
                !in_fence,
                if in_fence {
                    true
                } else {
                    blank
                },
            )
        } else if in_fence {
            seq![(false, raw)] + recover_pieces_from(ls, i + 1, in_fence, blank)
        } else {
            match pipe_row_cell_count(text) {
                None => seq![(false, raw)] + recover_pieces_from(ls, i + 1, false, blank),
                Some(h) => {
                    if real_separator_follows(ls, i, h) {
                        let e = body_end(ls, i + 2);
                        proof {
                            lemma_body_end(ls, i + 2);
                        }
                        seq![(false, raw), (false, ls[i + 1])] + kept_range(ls, i + 2, e)
                            + recover_pieces_from(ls, e, false, false)
                    } else if may_synthesize(ls, i, h, prev_blank) {
                        let e = body_end(ls, i + 1);
                        proof {
                            lemma_body_end(ls, i + 1);
                        }
                        seq![(false, raw), (true, synthetic_separator(h, line_terminator(raw)))]
                            + kept_range(ls, i + 1, e) + recover_pieces_from(ls, e, false, false)
                    } else {
                        seq![(false, raw)] + recover_pieces_from(ls, i + 1, false, blank)
                    }
                },
            }
        }
    }
}

/// The pieces of [`recover_spec`]'s output for `content`.
pub open spec fn recover_pieces(content: Seq<char>) -> Seq<Piece> {
    recover_pieces_from(lines(content), 0, false, true)
}

/// The text of each piece.
pub open spec fn piece_texts(ps: Seq<Piece>) -> Seq<Seq<char>> {
    Seq::new(ps.len(), |t: int| ps[t].1)
}

/// The text of each piece that is a line of the input, in order.
pub open spec fn kept_lines(ps: Seq<Piece>) -> Seq<Seq<char>>
    decreases ps.len(),
{
    if ps.len() == 0 {
        seq![]
    } else if ps[0].0 {
        kept_lines(ps.drop_first())
    } else {
        seq![ps[0].1] + kept_lines(ps.drop_first())
    }
}

/// Whether `row` is a delimiter row the recovery synthesizes: `| --- | ... |`
/// with at least two cells, ending with a line terminator of the input.
pub open spec fn is_synthetic_row(row: Seq<char>) -> bool {
    exists|n: nat, t: Seq<char>|
        n >= 2 && (t == Seq::<char>::empty() || t == seq!['\n'] || t == seq!['\r', '\n']) && row
            == synthetic_separator(n, t)
}

proof fn lemma_kept_lines_append(a: Seq<Piece>, b: Seq<Piece>)
    ensures
        kept_lines(a + b) == kept_lines(a) + kept_lines(b),
    decreases a.len(),
{
    if a.len() == 0 {
        assert(a + b =~= b);
    } else {
        lemma_kept_lines_append(a.drop_first(), b);
        assert((a + b).drop_first() =~= a.drop_first() + b);
        assert((a + b)[0] == a[0]);
    }
}

proof fn lemma_kept_range(ls: Seq<Seq<char>>, a: int, b: int)
    requires
        0 <= a <= b <= ls.len(),
    ensures
        kept_lines(kept_range(ls, a, b)) == ls.subrange(a, b),
        concat(piece_texts(kept_range(ls, a, b))) == concat_range(ls, a, b),
    decreases b - a,
{
    let k = kept_range(ls, a, b);
    assert(piece_texts(k) =~= ls.subrange(a, b));
    if a < b {
        lemma_kept_range(ls, a + 1, b);
        assert(k.drop_first() =~= kept_range(ls, a + 1, b));
        assert(k[0] == (false, ls[a]));
        assert(ls.subrange(a, b) =~= seq![ls[a]] + ls.subrange(a + 1, b));
    } else {
        assert(k =~= Seq::<Piece>::empty());
    }
}

proof fn lemma_texts_append(a: Seq<Piece>, b: Seq<Piece>)
    ensures
        concat(piece_texts(a + b)) == concat(piece_texts(a)) + concat(piece_texts(b)),
{
    assert(piece_texts(a + b) =~= piece_texts(a) + piece_texts(b));
    lemma_concat_append(piece_texts(a), piece_texts(b));
}

proof fn lemma_recover_pieces(ls: Seq<Seq<char>>, i: int, in_fence: bool, prev_blank: bool)
    requires
        0 <= i <= ls.len(),
    ensures
        concat(piece_texts(recover_pieces_from(ls, i, in_fence, prev_blank))) == recover_from(
            ls,
            i,
            in_fence,
            prev_blank,
        ),
        kept_lines(recover_pieces_from(ls, i, in_fence, prev_blank)) == ls.skip(i),
        forall|t: int|
            0 <= t < recover_pieces_from(ls, i, in_fence, prev_blank).len() && (
            #[trigger] recover_pieces_from(ls, i, in_fence, prev_blank)[t]).0 ==> is_synthetic_row(
                recover_pieces_from(ls, i, in_fence, prev_blank)[t].1,
            ),
    decreases ls.len() - i,
{
    let ps = recover_pieces_from(ls, i, in_fence, prev_blank);
    if i >= ls.len() {
        assert(ps =~= Seq::<Piece>::empty());
        assert(piece_texts(ps) =~= Seq::<Seq<char>>::empty());
        assert(ls.skip(i) =~= Seq::<Seq<char>>::empty());
    } else {
        let raw = ls[i];
        let text = trim_terminator(raw);
        let blank = trim(text).len() == 0;
        let one = seq![(false, raw)];
        assert(piece_texts(one) =~= seq![raw]);
        lemma_concat_prepend(raw, Seq::<Seq<char>>::empty());
        assert(seq![raw] + Seq::<Seq<char>>::empty() =~= seq![raw]);
        assert(raw + Seq::<char>::empty() =~= raw);
        assert(kept_lines(one.drop_first()) =~= Seq::<Seq<char>>::empty());
        assert(kept_lines(one) =~= seq![raw]);
        assert(ls.subrange(i, i + 1) =~= seq![raw]);
        if is_fence_delimiter(text) {
            let nb = if in_fence {
                true
            } else {
                blank
            };
            lemma_recover_pieces(ls, i + 1, !in_fence, nb);
            lemma_recover_step(ls, i, i + 1, one, recover_pieces_from(ls, i + 1, !in_fence, nb));
        } else if in_fence {
            lemma_recover_pieces(ls, i + 1, in_fence, blank);
            lemma_recover_step(ls, i, i + 1, one, recover_pieces_from(ls, i + 1, in_fence, blank));
        } else {
            match pipe_row_cell_count(text) {
                None => {
                    lemma_recover_pieces(ls, i + 1, false, blank);
                    lemma_recover_step(ls, i, i + 1, one, recover_pieces_from(ls, i + 1, false, blank));
                },
                Some(h) => {
                    if real_separator_follows(ls, i, h) {
                        lemma_body_end(ls, i + 2);
                        let e = body_end(ls, i + 2);
                        let two = seq![(false, raw), (false, ls[i + 1])];
                        let head = two + kept_range(ls, i + 2, e);
                        lemma_kept_range(ls, i + 2, e);
                        lemma_texts_append(two, kept_range(ls, i + 2, e));
                        lemma_kept_lines_append(two, kept_range(ls, i + 2, e));
                        assert(piece_texts(two) =~= seq![raw, ls[i + 1]]);
                        lemma_concat_prepend(raw, seq![ls[i + 1]]);
                        lemma_concat_prepend(ls[i + 1], Seq::<Seq<char>>::empty());
                        assert(seq![ls[i + 1]] + Seq::<Seq<char>>::empty() =~= seq![ls[i + 1]]);
                        assert(seq![raw] + seq![ls[i + 1]] =~= seq![raw, ls[i + 1]]);
                        assert(ls[i + 1] + Seq::<char>::empty() =~= ls[i + 1]);
                        assert(two.drop_first() =~= seq![(false, ls[i + 1])]);
                        assert(seq![(false, ls[i + 1])].drop_first() =~= Seq::<Piece>::empty());
                        let t1 = seq![(false, ls[i + 1])];
                        assert(kept_lines(t1.drop_first()) =~= Seq::<Seq<char>>::empty());
                        assert(kept_lines(t1) =~= seq![ls[i + 1]]);
                        assert(kept_lines(two) == seq![raw] + kept_lines(t1));
                        assert(kept_lines(two) =~= seq![raw, ls[i + 1]]);
                        assert(seq![raw, ls[i + 1]] + ls.subrange(i + 2, e) =~= ls.subrange(i, e));
                        assert(concat(piece_texts(head)) =~= raw + ls[i + 1] + concat_range(ls, i + 2, e));
                        assert forall|t: int| 0 <= t < head.len() implies !(#[trigger] head[t]).0 by {
                            if t >= 2 {
                                assert(head[t] == kept_range(ls, i + 2, e)[t - 2]);
                            }
                        }
                        lemma_recover_pieces(ls, e, false, false);
                        lemma_recover_step(ls, i, e, head, recover_pieces_from(ls, e, false, false));
                    } else if may_synthesize(ls, i, h, prev_blank) {
                        lemma_body_end(ls, i + 1);
                        let e = body_end(ls, i + 1);
                        let sep = synthetic_separator(h, line_terminator(raw));
                        let two = seq![(false, raw), (true, sep)];
                        let head = two + kept_range(ls, i + 1, e);
                        lemma_kept_range(ls, i + 1, e);
                        lemma_texts_append(two, kept_range(ls, i + 1, e));
                        lemma_kept_lines_append(two, kept_range(ls, i + 1, e));
                        assert(piece_texts(two) =~= seq![raw, sep]);
                        lemma_concat_prepend(raw, seq![sep]);
                        lemma_concat_prepend(sep, Seq::<Seq<char>>::empty());
                        assert(seq![sep] + Seq::<Seq<char>>::empty() =~= seq![sep]);
                        assert(seq![raw] + seq![sep] =~= seq![raw, sep]);
                        assert(sep + Seq::<char>::empty() =~= sep);
                        assert(two.drop_first() =~= seq![(true, sep)]);
                        assert(seq![(true, sep)].drop_first() =~= Seq::<Piece>::empty());
                        let t1 = seq![(true, sep)];
                        assert(kept_lines(t1.drop_first()) =~= Seq::<Seq<char>>::empty());
                        assert(kept_lines(t1) =~= Seq::<Seq<char>>::empty());
                        assert(kept_lines(two) == seq![raw] + kept_lines(t1));
                        assert(kept_lines(two) =~= seq![raw]);
                        assert(seq![raw] + ls.subrange(i + 1, e) =~= ls.subrange(i, e));
                        assert(concat(piece_texts(head)) =~= raw + sep + concat_range(ls, i + 1, e));
                        let term = line_terminator(raw);
                        assert(term == Seq::<char>::empty() || term == seq!['\n'] || term == seq!['\r', '\n']);
                        assert(is_synthetic_row(sep));
                        assert forall|t: int| 0 <= t < head.len() && (#[trigger] head[t]).0 implies is_synthetic_row(head[t].1) by {
                            if t >= 2 {
                                assert(head[t] == kept_range(ls, i + 1, e)[t - 2]);
                            } else if t == 0 {
                                assert(head[t] == (false, raw));
                            } else {
                                assert(head[t] == (true, sep));
                            }
                        }
                        lemma_recover_pieces(ls, e, false, false);
                        lemma_recover_step(ls, i, e, head, recover_pieces_from(ls, e, false, false));
                    } else {
                        lemma_recover_pieces(ls, i + 1, false, blank);
                        lemma_recover_step(ls, i, i + 1, one, recover_pieces_from(ls, i + 1, false, blank));
                    }
                },
            }
        }
    }
}

proof fn lemma_recover_step(ls: Seq<Seq<char>>, i: int, n: int, head: Seq<Piece>, rest: Seq<Piece>)
    requires
        0 <= i < n <= ls.len(),
        kept_lines(head) == ls.subrange(i, n),
        kept_lines(rest) == ls.skip(n),
        forall|t: int| 0 <= t < head.len() && (#[trigger] head[t]).0 ==> is_synthetic_row(head[t].1),
        forall|t: int| 0 <= t < rest.len() && (#[trigger] rest[t]).0 ==> is_synthetic_row(rest[t].1),
    ensures
        concat(piece_texts(head + rest)) == concat(piece_texts(head)) + concat(piece_texts(rest)),
        kept_lines(head + rest) == ls.skip(i),
        forall|t: int| 0 <= t < (head + rest).len() && (#[trigger] (head + rest)[t]).0 ==> is_synthetic_row((head + rest)[t].1),
{
    lemma_texts_append(head, rest);
    lemma_kept_lines_append(head, rest);
    assert(ls.subrange(i, n) + ls.skip(n) =~= ls.skip(i));
    assert forall|t: int| 0 <= t < (head + rest).len() && (#[trigger] (head + rest)[t]).0 implies is_synthetic_row((head + rest)[t].1) by {
        if t >= head.len() {
            assert((head + rest)[t] == rest[t - head.len()]);
        } else {
            assert((head + rest)[t] == head[t]);
        }
    }
}

/// Recovering delimiter rows is lossless: the recovered text is made of the
/// input's lines, all of them, in order and unchanged, with whole delimiter
/// rows of at least two cells inserted between them.
pub proof fn lemma_recover_lossless(content: Seq<char>)
    ensures
        concat(piece_texts(recover_pieces(content))) == recover_spec(content),
        kept_lines(recover_pieces(content)) == lines(content),
        concat(kept_lines(recover_pieces(content))) == content,
        forall|t: int|
            0 <= t < recover_pieces(content).len() && (#[trigger] recover_pieces(content)[t]).0
                ==> is_synthetic_row(recover_pieces(content)[t].1),
{
    lemma_recover_pieces(lines(content), 0, false, true);
    assert(lines(content).skip(0) =~= lines(content));
    crate::text::lemma_concat_lines(content);
}

proof fn lemma_body_end_shift(a: Seq<Seq<char>>, b: Seq<Seq<char>>, j: int)
    requires
        0 <= j,
    ensures
        body_end(a + b, a.len() + j) == a.len() + body_end(b, j),
    decreases b.len() - j,
{
    if j < b.len() {
        assert((a + b)[a.len() + j] == b[j]);
        if is_pipe_row_line(b[j]) {
            lemma_body_end_shift(a, b, j + 1);
        }
    }
}

proof fn lemma_body_end_at(ls: Seq<Seq<char>>, j: int, m: int)
    requires
        0 <= j <= m <= ls.len(),
        forall|t: int| j <= t < m ==> is_pipe_row_line(#[trigger] ls[t]),
        m < ls.len() ==> !is_pipe_row_line(ls[m]),
    ensures
        body_end(ls, j) == m,
    decreases m - j,
{
    if j < m {
        lemma_body_end_at(ls, j + 1, m);
    }
}

/// The scan only looks forward: lines before the start do not matter.
proof fn lemma_recover_shift(a: Seq<Seq<char>>, b: Seq<Seq<char>>, i: int, in_fence: bool, prev_blank: bool)
    requires
        0 <= i,
    ensures
        recover_from(a + b, a.len() + i, in_fence, prev_blank) == recover_from(b, i, in_fence, prev_blank),
    decreases b.len() - i,
{
    let ab = a + b;
    let o = a.len() as int;
    if i < b.len() {
        assert(ab[o + i] == b[i]);
        if i + 1 < b.len() {
            assert(ab[o + i + 1] == b[i + 1]);
        }
        let raw = b[i];
        let text = trim_terminator(raw);
        let blank = trim(text).len() == 0;
        if is_fence_delimiter(text) {
            lemma_recover_shift(a, b, i + 1, !in_fence, if in_fence { true } else { blank });
        } else if in_fence {
            lemma_recover_shift(a, b, i + 1, in_fence, blank);
        } else {
            match pipe_row_cell_count(text) {
                None => {
                    lemma_recover_shift(a, b, i + 1, false, blank);
                },
                Some(h) => {
                    assert(real_separator_follows(ab, o + i, h) == real_separator_follows(b, i, h));
                    assert(may_synthesize(ab, o + i, h, prev_blank) == may_synthesize(b, i, h, prev_blank));
                    if real_separator_follows(b, i, h) {
                        lemma_body_end_shift(a, b, i + 2);
                        lemma_body_end(b, i + 2);
                        let e = body_end(b, i + 2);
                        assert(ab.subrange(o + i + 2, o + e) =~= b.subrange(i + 2, e));
                        lemma_recover_shift(a, b, e, false, false);
                    } else if may_synthesize(b, i, h, prev_blank) {
                        lemma_body_end_shift(a, b, i + 1);
                        lemma_body_end(b, i + 1);
                        let e = body_end(b, i + 1);
                        assert(ab.subrange(o + i + 1, o + e) =~= b.subrange(i + 1, e));
                        lemma_recover_shift(a, b, e, false, false);
                    } else {
                        lemma_recover_shift(a, b, i + 1, false, blank);
                    }
                },
            }
        }
    }
}

/// The text of a synthesized delimiter row of `n` cells, without terminator.
pub open spec fn separator_text(n: nat) -> Seq<char> {
    seq!['|', ' '] + separator_cells(n) + seq![' ', '|']
}

/// One `" --- |"` unit, `n` times.
spec fn sep_units(n: nat) -> Seq<char>
    decreases n,
{
    if n == 0 {
        seq![]
    } else {
        sep_units((n - 1) as nat) + seq![' ', '-', '-', '-', ' ', '|']
    }
}

proof fn lemma_separator_text_units(n: nat)
    requires
        n >= 1,
    ensures
        separator_text(n) == seq!['|'] + sep_units(n),
        sep_units(n).len() == 6 * n,
    decreases n,
{
    if n == 1 {
        assert(sep_units(0) =~= Seq::<char>::empty());
        assert(separator_text(1) =~= seq!['|'] + sep_units(1));
    } else {
        lemma_separator_text_units((n - 1) as nat);
        assert(separator_text(n) =~= separator_text((n - 1) as nat) + seq![' ', '-', '-', '-', ' ', '|']);
    }
}

proof fn lemma_units_char(n: nat, q: int)
    requires
        0 <= q < 6 * n,
    ensures
        sep_units(n).len() == 6 * n,
        sep_units(n)[q] == (if q % 6 == 5 {
            '|'
        } else if q % 6 == 0 || q % 6 == 4 {
            ' '
        } else {
            '-'
        }),
    decreases n,
{
    if n > 0 {
        if q < 6 * (n - 1) {
            lemma_units_char((n - 1) as nat, q);
        } else {
            if n > 1 {
                lemma_units_char((n - 1) as nat, 0);
            } else {
                assert(sep_units(0) =~= Seq::<char>::empty());
            }
            let k = q - 6 * (n - 1);
            assert(0 <= k < 6);
            assert(sep_units(n)[q] == seq![' ', '-', '-', '-', ' ', '|'][k]);
            assert(q % 6 == k) by (nonlinear_arith)
                requires
                    q == 6 * (n - 1) + k,
                    0 <= k < 6,
                    n >= 1,
            ;
        }
    }
}

proof fn lemma_split_skip(text: Seq<char>, s: int, p: int, r: int)
    requires
        0 <= p <= r <= text.len(),
        forall|q: int| p <= q < r ==> !is_unescaped_pipe(text, q),
    ensures
        split_pipes_from(text, s, p) == split_pipes_from(text, s, r),
    decreases r - p,
{
    if p < r {
        lemma_split_skip(text, s, p + 1, r);
    }
}

/// `" --- "`
spec fn dash_cell() -> Seq<char> {
    seq![' ', '-', '-', '-', ' ']
}

proof fn lemma_split_separator_from(n: nat, k: nat)
    requires
        n >= 1,
        k <= n,
    ensures
        split_pipes_from(separator_text(n), 6 * k as int + 1, 6 * k as int + 1) == Seq::new(
            (n - k) as nat,
            |t: int| dash_cell(),
        ) + seq![Seq::<char>::empty()],
    decreases n - k,
{
    let text = separator_text(n);
    lemma_separator_text_units(n);
    assert(text.len() == 6 * n + 1);
    if k == n {
        assert(text.subrange(6 * n as int + 1, 6 * n as int + 1) =~= Seq::<char>::empty());
        assert(Seq::new((n - k) as nat, |t: int| dash_cell()) =~= Seq::<Seq<char>>::empty());
        assert(Seq::<Seq<char>>::empty() + seq![Seq::<char>::empty()] =~= seq![Seq::<char>::empty()]);
    } else {
        let b: int = 6 * k as int + 1;
        assert forall|q: int| b <= q < b + 5 implies !is_unescaped_pipe(text, q) by {
            lemma_units_char(n, q - 1);
            assert(text[q] == sep_units(n)[q - 1]);
            assert((q - 1) % 6 != 5) by (nonlinear_arith)
                requires
                    6 * k <= q - 1 < 6 * k + 5,
            ;
        }
        lemma_split_skip(text, b, b, b + 5);
        lemma_units_char(n, b + 4);
        lemma_units_char(n, b + 3);
        assert((b + 4) % 6 == 5) by (nonlinear_arith)
            requires
                b == 6 * k + 1,
        ;
        assert((b + 3) % 6 == 4) by (nonlinear_arith)
            requires
                b == 6 * k + 1,
        ;
        assert(text[b + 5] == '|');
        assert(text[b + 4] == ' ');
        assert(backslash_run(text, b + 5) == 0);
        assert(is_unescaped_pipe(text, b + 5));
        lemma_split_separator_from(n, k + 1);
        assert(6 * (k + 1) as int + 1 == b + 6);
        assert forall|q: int| b <= q < b + 5 implies text[q] == dash_cell()[q - b] by {
            lemma_units_char(n, q - 1);
            assert(text[q] == sep_units(n)[q - 1]);
            assert((q - 1) % 6 == q - b) by (nonlinear_arith)
                requires
                    b == 6 * k + 1,
                    b <= q < b + 5,
            ;
        }
        assert(text.subrange(b, b + 5) =~= dash_cell());
        assert(Seq::new((n - k) as nat, |t: int| dash_cell()) =~= seq![dash_cell()] + Seq::new(
            (n - (k + 1)) as nat,
            |t: int| dash_cell(),
        ));
    }
}

/// A synthesized delimiter row is read back as a delimiter row of its width.
proof fn lemma_separator_is_delimiter(n: nat, term: Seq<char>)
    requires
        n >= 1,
        term == Seq::<char>::empty() || term == seq!['\n'] || term == seq!['\r', '\n'],
    ensures
        trim_terminator(synthetic_separator(n, term)) == separator_text(n),
        pipe_row_cell_count(separator_text(n)) == Some(n),
        is_delimiter_row(separator_text(n)),
{
    let text = separator_text(n);
    lemma_separator_text_units(n);
    lemma_units_char(n, 6 * n - 1);
    assert((6 * n - 1) % 6 == 5) by (nonlinear_arith)
        requires
            n >= 1,
    ;
    assert(text.last() == '|');
    assert(synthetic_separator(n, term) =~= text + term);
    assert(trim_newlines_end(text) == text);
    if term.len() == 2 {
        assert((text + term).drop_last() =~= text.push('\r'));
        assert(text.push('\r').drop_last() =~= text);
        assert((text + term).last() == '\n');
        assert(trim_newlines_end(text + term) == trim_newlines_end(text.push('\r')));
        assert(trim_newlines_end(text.push('\r')) == trim_newlines_end(text));
    } else if term.len() == 1 {
        assert((text + term).drop_last() =~= text);
        assert((text + term).last() == '\n');
        assert(trim_newlines_end(text + term) == trim_newlines_end(text));
    } else {
        assert(text + term =~= text);
    }
    assert(trim_start(text) == text);
    assert(trim_end(text) == text);
    assert(trim(text) == text);
    assert(backslash_run(text, 0) == 0);
    assert(is_unescaped_pipe(text, 0));
    lemma_split_separator_from(n, 0);
    assert(text.subrange(0, 0) =~= Seq::<char>::empty());
    let parts = split_unescaped_pipes(text);
    let dashes = Seq::new(n, |t: int| dash_cell());
    assert(parts == seq![Seq::<char>::empty()] + (dashes + seq![Seq::<char>::empty()]));
    assert(parts.drop_first() =~= dashes + seq![Seq::<char>::empty()]);
    assert((dashes + seq![Seq::<char>::empty()]).drop_last() =~= dashes);
    let dc = dash_cell();
    assert(dc.drop_first() =~= seq!['-', '-', '-', ' ']);
    assert(seq!['-', '-', '-', ' '].drop_last() =~= seq!['-', '-', '-']);
    assert(trim_start(dc) == trim_start(dc.drop_first()));
    assert(trim_start(seq!['-', '-', '-', ' ']) == seq!['-', '-', '-', ' ']);
    assert(trim_end(seq!['-', '-', '-', ' ']) == trim_end(seq!['-', '-', '-']));
    assert(trim_end(seq!['-', '-', '-']) == seq!['-', '-', '-']);
    assert(trim(dc) == seq!['-', '-', '-']);
    let cells = split_cells(text).unwrap();
    assert(cells.len() == n);
    assert forall|t: int| 0 <= t < cells.len() implies is_delimiter_cell(cells[t]) by {
        assert(cells[t] == trim(dashes[t]));
        assert(dashes[t] == dc);
        let c = seq!['-', '-', '-'];
        assert(strip_colon_prefix(c) == c);
        assert(strip_colon_suffix(c) == c);
        assert(all_dashes(c));
    }
}

proof fn lemma_pieces_first(ls: Seq<Seq<char>>, i: int, in_fence: bool, prev_blank: bool)
    requires
        0 <= i < ls.len(),
    ensures
        recover_pieces_from(ls, i, in_fence, prev_blank).len() > 0,
        recover_pieces_from(ls, i, in_fence, prev_blank)[0] == (false, ls[i]),
{
    let raw = ls[i];
    let text = trim_terminator(raw);
    if !is_fence_delimiter(text) && !in_fence {
        match pipe_row_cell_count(text) {
            None => {},
            Some(h) => {
                if real_separator_follows(ls, i, h) {
                    lemma_body_end(ls, i + 2);
                } else if may_synthesize(ls, i, h, prev_blank) {
                    lemma_body_end(ls, i + 1);
                }
            },
        }
    }
}

/// The text of a synthesized row, with a `\n` or `\r\n` terminator, is one
/// proper line ending with `\n`.
proof fn lemma_separator_line(n: nat, term: Seq<char>)
    requires
        n >= 1,
        term == seq!['\n'] || term == seq!['\r', '\n'],
    ensures
        crate::text::is_proper_line(synthetic_separator(n, term)),
        synthetic_separator(n, term).last() == '\n',
{
    let text = separator_text(n);
    lemma_separator_text_units(n);
    let sep = synthetic_separator(n, term);
    assert(sep =~= text + term);
    assert forall|t: int| 0 <= t < sep.len() - 1 implies #[trigger] sep[t] != '\n' by {
        if t >= 1 && t < text.len() {
            lemma_units_char(n, t - 1);
            assert(sep[t] == sep_units(n)[t - 1]);
        } else if t >= text.len() {
            assert(sep[t] == term[t - text.len()]);
        }
    }
}

/// Recovering the recovered lines again scans them the way the first pass
/// scanned the input: every table it recognized, it recognizes again with its
/// (now real) delimiter row, and nothing else starts a table.
proof fn lemma_recover_again(ls: Seq<Seq<char>>, i: int, in_fence: bool, prev_blank: bool)
    requires
        0 <= i <= ls.len(),
    ensures
        recover_from(piece_texts(recover_pieces_from(ls, i, in_fence, prev_blank)), 0, in_fence, prev_blank)
            == recover_from(ls, i, in_fence, prev_blank),
    decreases ls.len() - i,
{
    let ps = recover_pieces_from(ls, i, in_fence, prev_blank);
    if i >= ls.len() {
        assert(piece_texts(ps) =~= Seq::<Seq<char>>::empty());
    } else {
        let raw = ls[i];
        let text = trim_terminator(raw);
        let blank = trim(text).len() == 0;
        let one = seq![(false, raw)];
        if is_fence_delimiter(text) || in_fence || pipe_row_cell_count(text) is None || (!real_separator_follows(ls, i, pipe_row_cell_count(text).unwrap()) && !may_synthesize(ls, i, pipe_row_cell_count(text).unwrap(), prev_blank)) {
            let nf = if is_fence_delimiter(text) {
                !in_fence
            } else if in_fence {
                in_fence
            } else {
                false
            };
            let nb = if is_fence_delimiter(text) && in_fence {
                true
            } else {
                blank
            };
            let rest = recover_pieces_from(ls, i + 1, nf, nb);
            assert(ps == one + rest);
            let t = piece_texts(rest);
            assert(piece_texts(ps) =~= seq![raw] + t);
            let all = seq![raw] + t;
            lemma_recover_again(ls, i + 1, nf, nb);
            lemma_recover_shift(seq![raw], t, 0, nf, nb);
            assert(seq![raw].len() + 0 == 1);
            if i + 1 < ls.len() {
                lemma_pieces_first(ls, i + 1, nf, nb);
                assert(all[1] == t[0]);
                assert(t[0] == ls[i + 1]);
            } else {
                assert(rest =~= Seq::<Piece>::empty());
                assert(all.len() == 1);
            }
            assert(all[0] == raw);
            match pipe_row_cell_count(text) {
                None => {},
                Some(h) => {
                    assert(real_separator_follows(all, 0, h) == real_separator_follows(ls, i, h));
                    assert(may_synthesize(all, 0, h, prev_blank) == may_synthesize(ls, i, h, prev_blank));
                },
            }
            assert(recover_from(all, 0, in_fence, prev_blank) == raw + recover_from(all, 1, nf, nb));
        } else {
            let h = pipe_row_cell_count(text).unwrap();
            if real_separator_follows(ls, i, h) {
                lemma_body_end(ls, i + 2);
                let e = body_end(ls, i + 2);
                let head = seq![(false, raw), (false, ls[i + 1])] + kept_range(ls, i + 2, e);
                let rest = recover_pieces_from(ls, e, false, false);
                assert(ps == head + rest);
                let hl = ls.subrange(i, e);
                let t = piece_texts(rest);
                assert(piece_texts(ps) =~= hl + t);
                let all = hl + t;
                lemma_recover_again(ls, e, false, false);
                lemma_recover_shift(hl, t, 0, false, false);
                if e < ls.len() {
                    lemma_pieces_first(ls, e, false, false);
                    assert(all[e - i] == ls[e]);
                } else {
                    assert(rest =~= Seq::<Piece>::empty());
                }
                assert(all[0] == raw);
                assert(all[1] == ls[i + 1]);
                assert(real_separator_follows(all, 0, h));
                assert forall|q: int| 2 <= q < e - i implies is_pipe_row_line(#[trigger] all[q]) by {
                    assert(all[q] == ls[i + q]);
                }
                lemma_body_end_at(all, 2, e - i);
                assert(all.subrange(2, e - i) =~= ls.subrange(i + 2, e));
                assert(hl.len() + 0 == e - i);
            } else {
                lemma_body_end(ls, i + 1);
                let e = body_end(ls, i + 1);
                let term = line_terminator(raw);
                let sep = synthetic_separator(h, term);
                let head = seq![(false, raw), (true, sep)] + kept_range(ls, i + 1, e);
                let rest = recover_pieces_from(ls, e, false, false);
                assert(ps == head + rest);
                let hl = seq![raw, sep] + ls.subrange(i + 1, e);
                let t = piece_texts(rest);
                assert(piece_texts(ps) =~= hl + t);
                let all = hl + t;
                lemma_recover_again(ls, e, false, false);
                lemma_recover_shift(hl, t, 0, false, false);
                if e < ls.len() {
                    lemma_pieces_first(ls, e, false, false);
                    assert(all[e - i + 1] == ls[e]);
                } else {
                    assert(rest =~= Seq::<Piece>::empty());
                }
                assert(all[0] == raw);
                assert(all[1] == sep);
                assert(term == Seq::<char>::empty() || term == seq!['\n'] || term == seq!['\r', '\n']);
                lemma_separator_is_delimiter(h, term);
                assert(real_separator_follows(all, 0, h));
                assert forall|q: int| 2 <= q < e - i + 1 implies is_pipe_row_line(#[trigger] all[q]) by {
                    assert(all[q] == ls[i + q - 1]);
                }
                lemma_body_end_at(all, 2, e - i + 1);
                assert(all.subrange(2, e - i + 1) =~= ls.subrange(i + 1, e));
                assert(hl.len() + 0 == e - i + 1);
            }
        }
    }
}

proof fn lemma_pieces_proper(ls: Seq<Seq<char>>, i: int, in_fence: bool, prev_blank: bool)
    requires
        0 <= i <= ls.len(),
        crate::text::proper_lines(ls),
    ensures
        crate::text::proper_lines(piece_texts(recover_pieces_from(ls, i, in_fence, prev_blank))),
    decreases ls.len() - i,
{
    let ps = recover_pieces_from(ls, i, in_fence, prev_blank);
    if i >= ls.len() {
        assert(piece_texts(ps) =~= Seq::<Seq<char>>::empty());
    } else {
        let raw = ls[i];
        let text = trim_terminator(raw);
        let blank = trim(text).len() == 0;
        let (head_lines, n, nf, nb) = if is_fence_delimiter(text) || in_fence || pipe_row_cell_count(text) is None || (!real_separator_follows(ls, i, pipe_row_cell_count(text).unwrap()) && !may_synthesize(ls, i, pipe_row_cell_count(text).unwrap(), prev_blank)) {
            let nf = if is_fence_delimiter(text) {
                !in_fence
            } else if in_fence {
                in_fence
            } else {
                false
            };
            let nb = if is_fence_delimiter(text) && in_fence {
                true
            } else {
                blank
            };
            (seq![raw], i + 1, nf, nb)
        } else {
            let h = pipe_row_cell_count(text).unwrap();
            if real_separator_follows(ls, i, h) {
                lemma_body_end(ls, i + 2);
                let e = body_end(ls, i + 2);
                (ls.subrange(i, e), e, false, false)
            } else {
                lemma_body_end(ls, i + 1);
                let e = body_end(ls, i + 1);
                (seq![raw, synthetic_separator(h, line_terminator(raw))] + ls.subrange(i + 1, e), e, false, false)
            }
        };
        let rest = recover_pieces_from(ls, n, nf, nb);
        assert(piece_texts(ps) =~= head_lines + piece_texts(rest)) by {
            if is_fence_delimiter(text) || in_fence || pipe_row_cell_count(text) is None || (!real_separator_follows(ls, i, pipe_row_cell_count(text).unwrap()) && !may_synthesize(ls, i, pipe_row_cell_count(text).unwrap(), prev_blank)) {
                assert(ps == seq![(false, raw)] + rest);
            } else {
                let h = pipe_row_cell_count(text).unwrap();
                if real_separator_follows(ls, i, h) {
                    assert(ps == seq![(false, raw), (false, ls[i + 1])] + kept_range(ls, i + 2, n) + rest);
                } else {
                    assert(ps == seq![(false, raw), (true, synthetic_separator(h, line_terminator(raw)))]
                        + kept_range(ls, i + 1, n) + rest);
                }
            }
        }
        lemma_pieces_proper(ls, n, nf, nb);
        let t = piece_texts(rest);
        if n < ls.len() {
            lemma_pieces_first(ls, n, nf, nb);
        } else {
            assert(rest =~= Seq::<Piece>::empty());
        }
        let all = head_lines + t;
        assert forall|q: int| 0 <= q < all.len() implies crate::text::is_proper_line(#[trigger] all[q])
            && (q < all.len() - 1 ==> all[q].last() == '\n') by {
            if q >= head_lines.len() {
                assert(all[q] == t[q - head_lines.len()]);
            } else {
                assert(all[q] == head_lines[q]);
                if is_fence_delimiter(text) || in_fence || pipe_row_cell_count(text) is None || (!real_separator_follows(ls, i, pipe_row_cell_count(text).unwrap()) && !may_synthesize(ls, i, pipe_row_cell_count(text).unwrap(), prev_blank)) {
                    assert(all[q] == ls[i]);
                } else {
                    let h = pipe_row_cell_count(text).unwrap();
                    if real_separator_follows(ls, i, h) {
                        assert(all[q] == ls[i + q]);
                    } else if q == 0 {
                        assert(all[q] == ls[i]);
                    } else if q == 1 {
                        assert(raw.last() == '\n');
                        let term = line_terminator(raw);
                        assert(raw.subrange(raw.len() - 1, raw.len() as int) =~= seq!['\n']);
                        assert(term == seq!['\n'] || term == seq!['\r', '\n']);
                        lemma_separator_line(h, term);
                    } else {
                        assert(all[q] == ls[i + q - 1]);
                    }
                }
            }
        }
    }
}

/// Recovering delimiter rows is idempotent: a second pass over its output
/// recognizes the same tables, now with real delimiter rows, and inserts
/// nothing.
pub proof fn lemma_recover_idempotent(content: Seq<char>)
    ensures
        recover_spec(recover_spec(content)) == recover_spec(content),
{
    let ls = lines(content);
    let ps = recover_pieces(content);
    lemma_recover_pieces(ls, 0, false, true);
    crate::text::lemma_lines_proper(content);
    lemma_pieces_proper(ls, 0, false, true);
    crate::text::lemma_lines_of_proper(piece_texts(ps));
    lemma_recover_again(ls, 0, false, true);
}

/// The length of the UTF-8 encoding of `c`.
pub open spec fn char_width(c: char) -> nat {
    let u = c as u32;
    if u <= 0x7f {
        1
    } else if u <= 0x7ff {
        2
    } else if u <= 0xffff {
        3
    } else {
        4
    }
}

/// The length of the UTF-8 encoding of `s`.
pub open spec fn byte_len(s: Seq<char>) -> nat
    decreases s.len(),
{
    if s.len() == 0 {
        0
    } else {
        byte_len(s.drop_last()) + char_width(s.last())
    }
}

/// UTF-8 lengths add up over concatenation.
pub proof fn lemma_byte_len_append(a: Seq<char>, b: Seq<char>)
    ensures
        byte_len(a + b) == byte_len(a) + byte_len(b),
    decreases b.len(),
{
    if b.len() == 0 {
        assert(a + b == a);
    } else {
        assert((a + b).drop_last() == a + b.drop_last());
        lemma_byte_len_append(a, b.drop_last());
    }
}

/// The UTF-8 length is the length of the encoding.
pub proof fn lemma_byte_len_encode(s: Seq<char>)
    ensures
        vstd::utf8::encode_utf8(s).len() == byte_len(s),
    decreases s.len(),
{
    if s.len() > 0 {
        lemma_byte_len_encode(s.drop_first());
        let c = s[0];
        vstd::utf8::char_is_scalar(c);
        assert(s == seq![c] + s.drop_first());
        lemma_byte_len_append(seq![c], s.drop_first());
        assert(seq![c].drop_last() == Seq::<char>::empty());
        assert(byte_len(Seq::<char>::empty()) == 0);
        assert(seq![c].last() == c);
        assert(byte_len(seq![c]) == byte_len(seq![c].drop_last()) + char_width(seq![c].last()));
        assert(byte_len(seq![c]) == char_width(c));
        let u = c as u32;
        assert(vstd::utf8::is_scalar(u));
        assert(vstd::utf8::encode_scalar(u).len() == char_width(c));
        assert(vstd::utf8::encode_utf8(s) == vstd::utf8::encode_scalar(s[0] as u32)
            + vstd::utf8::encode_utf8(s.drop_first()));
    }
}

/// The UTF-8 length of one more character of a prefix.
pub proof fn lemma_byte_len_take(s: Seq<char>, i: int)
    requires
        0 <= i < s.len(),
    ensures
        byte_len(s.take(i + 1)) == byte_len(s.take(i)) + char_width(s[i]),
{
    assert(s.take(i + 1).drop_last() == s.take(i));
}

/// A longer prefix has a longer UTF-8 encoding.
pub proof fn lemma_byte_len_monotone(s: Seq<char>, i: int, j: int)
    requires
        0 <= i < j <= s.len(),
    ensures
        byte_len(s.take(i)) < byte_len(s.take(j)),
    decreases j - i,
{
    lemma_byte_len_take(s, j - 1);
    if i < j - 1 {
        lemma_byte_len_monotone(s, i, j - 1);
    }
}

/// The character index whose byte offset in `s` is `b`, if `b` is a character boundary.
pub open spec fn char_at_byte(s: Seq<char>, b: int) -> Option<int> {
    if exists|i: int| 0 <= i <= s.len() && byte_len(s.take(i)) == b {
        Some(choose|i: int| 0 <= i <= s.len() && byte_len(s.take(i)) == b)
    } else {
        None
    }
}

/// Each character starts at the UTF-8 length of what precedes it.
pub proof fn lemma_char_at_byte(s: Seq<char>, i: int)
    requires
        0 <= i <= s.len(),
    ensures
        char_at_byte(s, byte_len(s.take(i)) as int) == Some(i),
{
    let b = byte_len(s.take(i)) as int;
    let w = choose|w: int| 0 <= w <= s.len() && byte_len(s.take(w)) == b;
    if w < i {
        lemma_byte_len_monotone(s, w, i);
    } else if w > i {
        lemma_byte_len_monotone(s, i, w);
    }
}

/// What the parser reports for one event: a table's start (with its column
/// count), the start of its head row, the start of a body row, a table's end,
/// or anything else, with the event's byte range in the source.
pub enum MarkKind {
    TableStart(usize),
    TableHead,
    TableRow,
    TableEnd,
    Other,
}

/// One parser event, as [`MarkKind`] and byte range.
pub struct TableMark {
    pub kind: MarkKind,
    pub start: usize,
    pub end: usize,
}

/// The parser's events over `content`, with tables and strikethrough enabled.
pub uninterp spec fn parsed_table_marks(content: Seq<char>) -> Seq<TableMark>;

/// The character range of a mark's byte range, when both ends are character boundaries.
pub open spec fn mark_chars(content: Seq<char>, m: TableMark) -> Option<(int, int)> {
    match (char_at_byte(content, m.start as int), char_at_byte(content, m.end as int)) {
        (Some(a), Some(b)) => if a <= b {
            Some((a, b))
        } else {
            None
        },
        _ => None,
    }
}

/// The cell count of the row a mark spans (0 when it is not row-shaped).
pub open spec fn mark_cells(content: Seq<char>, m: TableMark) -> nat {
    match mark_chars(content, m) {
        Some((a, b)) => match pipe_row_cell_count(trim_terminator(content.subrange(a, b))) {
            Some(n) => n,
            None => 0,
        },
        None => 0,
    }
}

/// A table whose widest row is wider than its header: the header row's
/// character range and the widest row's cell count.
pub struct RaggedSpan {
    pub start: int,
    pub end: int,
    pub max_cells: nat,
}

pub open spec fn max_nat(a: nat, b: nat) -> nat {
    if a >= b {
        a
    } else {
        b
    }
}

/// The ragged tables among the marks `ms[k..]`, in source order, scanning with
/// the current table's header width, header range and widest row so far.
pub open spec fn ragged_from(
    content: Seq<char>,
    ms: Seq<TableMark>,
    k: int,
    header_cells: nat,
    header: Option<(int, int)>,
    max_cells: nat,
) -> Seq<RaggedSpan>
    decreases ms.len() - k,
{
    if k < 0 || k >= ms.len() {
        seq![]
    } else {
        let m = ms[k];
        match m.kind {
            MarkKind::TableStart(n) => ragged_from(content, ms, k + 1, n as nat, None, n as nat),
            MarkKind::TableHead => ragged_from(
                content,
                ms,
                k + 1,
                header_cells,
                mark_chars(content, m),
                max_nat(max_cells, mark_cells(content, m)),
            ),
            MarkKind::TableRow => ragged_from(
                content,
                ms,
                k + 1,
                header_cells,
                header,
                max_nat(max_cells, mark_cells(content, m)),
            ),
            MarkKind::TableEnd => match header {
                Some((a, b)) => if max_cells > header_cells {
                    seq![RaggedSpan { start: a, end: b, max_cells }] + ragged_from(
                        content,
                        ms,
                        k + 1,
                        header_cells,
                        None,
                        max_cells,
                    )
                } else {
                    ragged_from(content, ms, k + 1, header_cells, None, max_cells)
                },
                None => ragged_from(content, ms, k + 1, header_cells, None, max_cells),
            },
            MarkKind::Other => ragged_from(content, ms, k + 1, header_cells, header, max_cells),
        }
    }
}

/// The ragged tables the parser recognizes in `content`, in source order.
pub open spec fn ragged_spans(content: Seq<char>) -> Seq<RaggedSpan> {
    ragged_from(content, parsed_table_marks(content), 0, 0, None, 0)
}

/// Whether mark `m` is a table's head row or one of its body rows.
pub open spec fn is_row_mark(m: TableMark) -> bool {
    m.kind is TableHead || m.kind is TableRow
}

/// Whether `ms[a..=e]` is one table: its start (with `n` columns) at `a`, its
/// end at `e`, its one head row at `h` with a character range, and only body
/// rows and other events in between.
pub open spec fn one_table(content: Seq<char>, ms: Seq<TableMark>, a: int, h: int, e: int, n: usize) -> bool {
    &&& 0 <= a < h < e < ms.len()
    &&& ms[a].kind == MarkKind::TableStart(n)
    &&& ms[e].kind is TableEnd
    &&& ms[h].kind is TableHead
    &&& mark_chars(content, ms[h]) is Some
    &&& forall|t: int| a < t < e && t != h ==> (#[trigger] ms[t]).kind is TableRow || ms[t].kind is Other
}

proof fn lemma_table_scan(
    content: Seq<char>,
    ms: Seq<TableMark>,
    a: int,
    h: int,
    e: int,
    n: usize,
    k: int,
    hd: Option<(int, int)>,
    mc: nat,
) -> (width: nat)
    requires
        one_table(content, ms, a, h, e, n),
        a < k <= e,
        hd == (if k > h {
            mark_chars(content, ms[h])
        } else {
            None
        }),
        mc >= n,
        forall|t: int| a < t < k && is_row_mark(ms[t]) ==> mark_cells(content, #[trigger] ms[t]) <= mc,
        mc == n || exists|t: int| a < t < k && is_row_mark(ms[t]) && mark_cells(content, #[trigger] ms[t]) == mc,
    ensures
        width >= n,
        forall|t: int| a < t < e && is_row_mark(ms[t]) ==> mark_cells(content, #[trigger] ms[t]) <= width,
        width == n || exists|t: int| a < t < e && is_row_mark(ms[t]) && mark_cells(content, #[trigger] ms[t]) == width,
        ragged_from(content, ms, k, n as nat, hd, mc) == (if width > n {
            let (x, y) = mark_chars(content, ms[h]).unwrap();
            seq![RaggedSpan { start: x, end: y, max_cells: width }]
        } else {
            Seq::<RaggedSpan>::empty()
        }) + ragged_from(content, ms, e + 1, n as nat, None, width),
    decreases e - k,
{
    if k == e {
        let r = ragged_from(content, ms, e + 1, n as nat, None, mc);
        if mc > n {
            assert(seq![RaggedSpan { start: mark_chars(content, ms[h]).unwrap().0, end: mark_chars(content, ms[h]).unwrap().1, max_cells: mc }] + r
                == ragged_from(content, ms, k, n as nat, hd, mc));
        } else {
            assert(Seq::<RaggedSpan>::empty() + r =~= r);
        }
        mc
    } else {
        let m = ms[k];
        if k == h {
            let c = mark_cells(content, m);
            let mc2 = max_nat(mc, c);
            assert(is_row_mark(ms[k]));
            assert forall|t: int| a < t < k + 1 && is_row_mark(ms[t]) implies mark_cells(content, #[trigger] ms[t]) <= mc2 by {}
            if mc2 != n && !(exists|t: int| a < t < k && is_row_mark(ms[t]) && mark_cells(content, #[trigger] ms[t]) == mc) {
                assert(mark_cells(content, ms[k]) == mc2);
            }
            assert(mc2 == n || exists|t: int| a < t < k + 1 && is_row_mark(ms[t]) && mark_cells(content, #[trigger] ms[t]) == mc2) by {
                if mc2 == c {
                    assert(mark_cells(content, ms[k]) == mc2);
                } else if mc != n {
                    let t0 = choose|t: int| a < t < k && is_row_mark(ms[t]) && mark_cells(content, #[trigger] ms[t]) == mc;
                    assert(a < t0 < k + 1 && is_row_mark(ms[t0]) && mark_cells(content, ms[t0]) == mc2);
                }
            }
            lemma_table_scan(content, ms, a, h, e, n, k + 1, mark_chars(content, m), mc2)
        } else if m.kind is TableRow {
            let c = mark_cells(content, m);
            let mc2 = max_nat(mc, c);
            assert(is_row_mark(ms[k]));
            assert forall|t: int| a < t < k + 1 && is_row_mark(ms[t]) implies mark_cells(content, #[trigger] ms[t]) <= mc2 by {}
            assert(mc2 == n || exists|t: int| a < t < k + 1 && is_row_mark(ms[t]) && mark_cells(content, #[trigger] ms[t]) == mc2) by {
                if mc2 == c {
                    assert(mark_cells(content, ms[k]) == mc2);
                } else if mc != n {
                    let t0 = choose|t: int| a < t < k && is_row_mark(ms[t]) && mark_cells(content, #[trigger] ms[t]) == mc;
                    assert(a < t0 < k + 1 && is_row_mark(ms[t0]) && mark_cells(content, ms[t0]) == mc2);
                }
            }
            lemma_table_scan(content, ms, a, h, e, n, k + 1, hd, mc2)
        } else {
            assert(m.kind is Other);
            assert(!is_row_mark(ms[k]));
            assert(mc == n || exists|t: int| a < t < k + 1 && is_row_mark(ms[t]) && mark_cells(content, #[trigger] ms[t]) == mc) by {
                if mc != n {
                    let t0 = choose|t: int| a < t < k && is_row_mark(ms[t]) && mark_cells(content, #[trigger] ms[t]) == mc;
                    assert(a < t0 < k + 1);
                }
            }
            lemma_table_scan(content, ms, a, h, e, n, k + 1, hd, mc)
        }
    }
}

/// How a table is widened: its width is the largest cell count over its head
/// row and all of its body rows (or its column count, if larger), wherever
/// the widest row stands; when that exceeds the column count the table is
/// reported as ragged with its head row's range and that width, and
/// otherwise not at all. Whatever the scan carried in, it starts afresh at
/// the table, and goes on after it.
pub proof fn lemma_table_widened_to_widest_row(
    content: Seq<char>,
    ms: Seq<TableMark>,
    a: int,
    h: int,
    e: int,
    n: usize,
) -> (width: nat)
    requires
        one_table(content, ms, a, h, e, n),
    ensures
        width >= n,
        forall|t: int| a < t < e && is_row_mark(ms[t]) ==> mark_cells(content, #[trigger] ms[t]) <= width,
        width == n || exists|t: int| a < t < e && is_row_mark(ms[t]) && mark_cells(content, #[trigger] ms[t]) == width,
        forall|hc: nat, hd: Option<(int, int)>, mc: nat| #[trigger] ragged_from(content, ms, a, hc, hd, mc) == (if width > n {
            let (x, y) = mark_chars(content, ms[h]).unwrap();
            seq![RaggedSpan { start: x, end: y, max_cells: width }]
        } else {
            Seq::<RaggedSpan>::empty()
        }) + ragged_from(content, ms, e + 1, n as nat, None, width),
{
    let w = lemma_table_scan(content, ms, a, h, e, n, a + 1, None, n as nat);
    assert forall|hc: nat, hd: Option<(int, int)>, mc: nat| #[trigger] ragged_from(content, ms, a, hc, hd, mc)
        == ragged_from(content, ms, a + 1, n as nat, None, n as nat) by {}
    w
}

/// Cells joined by ` | `.
pub open spec fn join_cells(cs: Seq<Seq<char>>) -> Seq<char>
    decreases cs.len(),
{
    if cs.len() == 0 {
        seq![]
    } else if cs.len() == 1 {
        cs[0]
    } else {
        join_cells(cs.drop_last()) + seq![' ', '|', ' '] + cs.last()
    }
}

/// A pipe row with exactly `target` cells: `text`'s own cells, padded up to
/// `target` with `pad`.
pub open spec fn rebuild_row(text: Seq<char>, target: nat, pad: Seq<char>) -> Seq<char> {
    let cells = match split_cells(text) {
        Some(cs) => cs,
        None => seq![],
    };
    let padded = if cells.len() < target {
        cells + Seq::new((target - cells.len()) as nat, |i: int| pad)
    } else {
        cells
    };
    seq!['|', ' '] + join_cells(padded) + seq![' ', '|']
}

/// Whether `c` can stand as a cell of a rebuilt row: no whitespace at either
/// end, and every `|` in it escaped by an odd run of backslashes.
pub open spec fn cell_ok(c: Seq<char>) -> bool {
    &&& (c.len() > 0 ==> !is_ws(c[0]) && !is_ws(c.last()))
    &&& forall|q: int| 0 <= q < c.len() && c[q] == '|' ==> #[trigger] backslash_run(c, q) % 2 == 1
}

/// A cell of a rebuilt row and the spaces around it, then the pipe after it.
spec fn cell_unit(c: Seq<char>) -> Seq<char> {
    seq![' '] + c + seq![' ', '|']
}

/// The cells of `cs`, each as a [`cell_unit`], one after another.
spec fn cell_units(cs: Seq<Seq<char>>) -> Seq<char>
    decreases cs.len(),
{
    if cs.len() == 0 {
        seq![]
    } else {
        cell_unit(cs[0]) + cell_units(cs.drop_first())
    }
}

/// A cell with a space on each side.
spec fn spaced(c: Seq<char>) -> Seq<char> {
    seq![' '] + c + seq![' ']
}

proof fn lemma_run_local(text: Seq<char>, base: int, c: Seq<char>, q: int)
    requires
        1 <= base,
        base + c.len() <= text.len(),
        text.subrange(base, base + c.len()) == c,
        text[base - 1] != '\\',
        0 <= q <= c.len(),
    ensures
        backslash_run(text, base + q) == backslash_run(c, q),
    decreases q,
{
    if q > 0 {
        assert(text[base + q - 1] == c[q - 1]) by {
            assert(text.subrange(base, base + c.len())[q - 1] == text[base + q - 1]);
        }
        lemma_run_local(text, base, c, q - 1);
    }
}

proof fn lemma_split_units(x: Seq<char>, cs: Seq<Seq<char>>)
    requires
        forall|t: int| 0 <= t < cs.len() ==> cell_ok(#[trigger] cs[t]),
    ensures
        split_pipes_from(x + cell_units(cs), x.len() as int, x.len() as int) == Seq::new(
            cs.len(),
            |t: int| spaced(cs[t]),
        ) + seq![Seq::<char>::empty()],
    decreases cs.len(),
{
    let text = x + cell_units(cs);
    let s = x.len() as int;
    if cs.len() == 0 {
        assert(cell_units(cs) =~= Seq::<char>::empty());
        assert(text.subrange(s, text.len() as int) =~= Seq::<char>::empty());
        assert(Seq::new(cs.len(), |t: int| spaced(cs[t])) =~= Seq::<Seq<char>>::empty());
        assert(Seq::<Seq<char>>::empty() + seq![Seq::<char>::empty()] =~= seq![Seq::<char>::empty()]);
    } else {
        let c = cs[0];
        let rest = cs.drop_first();
        assert forall|t: int| 0 <= t < rest.len() implies cell_ok(#[trigger] rest[t]) by {
            assert(rest[t] == cs[t + 1]);
        }
        let u = cell_unit(c);
        let x2 = x + u;
        assert(text =~= x2 + cell_units(rest));
        lemma_split_units(x2, rest);
        let pipe = s + c.len() + 2;
        assert(text[s] == ' ');
        assert(text[pipe - 1] == ' ');
        assert(text[pipe] == '|');
        assert(text.subrange(s + 1, s + 1 + c.len()) =~= c);
        assert(cell_ok(cs[0]));
        assert forall|q: int| s <= q < pipe implies !is_unescaped_pipe(text, q) by {
            if s + 1 <= q < s + 1 + c.len() {
                assert(text[q] == c[q - s - 1]);
                if text[q] == '|' {
                    lemma_run_local(text, s + 1, c, q - s - 1);
                    assert(backslash_run(c, q - s - 1) % 2 == 1);
                }
            }
        }
        lemma_split_skip(text, s, s, pipe);
        assert(backslash_run(text, pipe) == 0);
        assert(is_unescaped_pipe(text, pipe));
        assert(text.subrange(s, pipe) =~= spaced(c));
        assert(pipe + 1 == x2.len());
        assert(Seq::new(cs.len(), |t: int| spaced(cs[t])) =~= seq![spaced(c)] + Seq::new(
            rest.len(),
            |t: int| spaced(rest[t]),
        ));
    }
}

proof fn lemma_cell_units_last(cs: Seq<Seq<char>>)
    requires
        cs.len() > 0,
    ensures
        cell_units(cs) == cell_units(cs.drop_last()) + cell_unit(cs.last()),
    decreases cs.len(),
{
    if cs.len() == 1 {
        assert(cell_units(cs.drop_first()) =~= Seq::<char>::empty());
        assert(cell_units(cs.drop_last()) =~= Seq::<char>::empty());
        assert(cell_units(cs) =~= cell_unit(cs[0]));
    } else {
        let t = cs.drop_first();
        lemma_cell_units_last(t);
        assert(cs.drop_last().drop_first() =~= t.drop_last());
        assert(cs.drop_last()[0] == cs[0]);
        assert(t.last() == cs.last());
        assert(cell_units(cs) =~= cell_units(cs.drop_last()) + cell_unit(cs.last()));
    }
}

proof fn lemma_joined_row(cs: Seq<Seq<char>>)
    requires
        cs.len() > 0,
    ensures
        seq!['|', ' '] + join_cells(cs) + seq![' ', '|'] == seq!['|'] + cell_units(cs),
    decreases cs.len(),
{
    lemma_cell_units_last(cs);
    if cs.len() == 1 {
        assert(cell_units(cs.drop_last()) =~= Seq::<char>::empty());
        assert(seq!['|', ' '] + join_cells(cs) + seq![' ', '|'] =~= seq!['|'] + cell_units(cs));
    } else {
        let d = cs.drop_last();
        lemma_joined_row(d);
        assert(seq!['|', ' '] + join_cells(cs) + seq![' ', '|'] =~= (seq!['|', ' '] + join_cells(d)
            + seq![' ', '|']) + cell_unit(cs.last()));
    }
}

proof fn lemma_trim_spaced(c: Seq<char>)
    requires
        cell_ok(c),
    ensures
        trim(spaced(c)) == c,
{
    let sp = spaced(c);
    assert(sp.drop_first() =~= c + seq![' ']);
    assert(trim_start(sp) == trim_start(c + seq![' ']));
    if c.len() > 0 {
        assert((c + seq![' '])[0] == c[0]);
        assert(trim_start(c + seq![' ']) == c + seq![' ']);
        assert((c + seq![' ']).drop_last() =~= c);
        assert(trim_end(c + seq![' ']) == trim_end(c));
        assert(trim_end(c) == c);
    } else {
        assert(c + seq![' '] =~= seq![' ']);
        assert(seq![' '].drop_first() =~= Seq::<char>::empty());
        assert(trim_start(seq![' ']) == trim_start(Seq::<char>::empty()));
        assert(trim_end(Seq::<char>::empty()) == Seq::<char>::empty());
        assert(c =~= Seq::<char>::empty());
    }
}

proof fn lemma_split_joined(cs: Seq<Seq<char>>)
    requires
        cs.len() > 0,
        forall|t: int| 0 <= t < cs.len() ==> cell_ok(#[trigger] cs[t]),
    ensures
        split_cells(seq!['|'] + cell_units(cs)) == Some(cs),
{
    let x = seq!['|'];
    let text = x + cell_units(cs);
    lemma_split_units(x, cs);
    lemma_cell_units_last(cs);
    assert(text.last() == '|');
    assert(text[0] == '|');
    assert(trim_start(text) == text);
    assert(trim_end(text) == text);
    assert(backslash_run(text, 0) == 0);
    assert(is_unescaped_pipe(text, 0));
    assert(text.subrange(0, 0) =~= Seq::<char>::empty());
    let body = Seq::new(cs.len(), |t: int| spaced(cs[t]));
    let parts = split_unescaped_pipes(text);
    assert(parts == seq![Seq::<char>::empty()] + (body + seq![Seq::<char>::empty()]));
    assert(parts.drop_first() =~= body + seq![Seq::<char>::empty()]);
    assert((body + seq![Seq::<char>::empty()]).drop_last() =~= body);
    let cells = split_cells(text).unwrap();
    assert forall|t: int| 0 <= t < cs.len() implies cells[t] == cs[t] by {
        lemma_trim_spaced(cs[t]);
    }
    assert(cells =~= cs);
}

proof fn lemma_pads_ok()
    ensures
        cell_ok(Seq::<char>::empty()),
        cell_ok(seq!['-', '-', '-']),
{
    let d = seq!['-', '-', '-'];
    assert forall|q: int| 0 <= q < d.len() && d[q] == '|' implies #[trigger] backslash_run(d, q) % 2 == 1 by {}
}

proof fn lemma_run_prefix(text: Seq<char>, y: int, q: int)
    requires
        0 <= q <= y <= text.len(),
    ensures
        backslash_run(text.subrange(0, y), q) == backslash_run(text, q),
    decreases q,
{
    if q > 0 {
        assert(text.subrange(0, y)[q - 1] == text[q - 1]);
        lemma_run_prefix(text, y, q - 1);
    }
}

/// Whether every `|` in `piece` is escaped by an odd run of backslashes
/// within it.
spec fn pipes_escaped(piece: Seq<char>) -> bool {
    forall|q: int| 0 <= q < piece.len() && piece[q] == '|' ==> #[trigger] backslash_run(piece, q) % 2 == 1
}

proof fn lemma_piece_escaped(text: Seq<char>, x: int, y: int)
    requires
        0 <= x <= y <= text.len(),
        forall|q: int| x <= q < y ==> !is_unescaped_pipe(text, q),
        x == 0 || text[x - 1] == '|',
    ensures
        pipes_escaped(text.subrange(x, y)),
{
    let piece = text.subrange(x, y);
    assert forall|q: int| 0 <= q < piece.len() && piece[q] == '|' implies #[trigger] backslash_run(piece, q) % 2 == 1 by {
        assert(piece[q] == text[x + q]);
        assert(!is_unescaped_pipe(text, x + q));
        if x == 0 {
            lemma_run_prefix(text, y, q);
        } else {
            lemma_run_local(text, x, piece, q);
        }
    }
}

proof fn lemma_split_pieces_escaped(text: Seq<char>, s: int, p: int)
    requires
        0 <= s <= p <= text.len(),
        forall|q: int| s <= q < p ==> !is_unescaped_pipe(text, q),
        s == 0 || text[s - 1] == '|',
    ensures
        forall|k: int| 0 <= k < split_pipes_from(text, s, p).len() ==> pipes_escaped(
            #[trigger] split_pipes_from(text, s, p)[k],
        ),
    decreases text.len() - p,
{
    let r = split_pipes_from(text, s, p);
    if p >= text.len() {
        lemma_piece_escaped(text, s, text.len() as int);
        assert(r == seq![text.subrange(s, text.len() as int)]);
        assert forall|k: int| 0 <= k < r.len() implies pipes_escaped(#[trigger] r[k]) by {
            assert(r[k] == text.subrange(s, text.len() as int));
        }
    } else if is_unescaped_pipe(text, p) {
        lemma_piece_escaped(text, s, p);
        lemma_split_pieces_escaped(text, p + 1, p + 1);
        let tl = split_pipes_from(text, p + 1, p + 1);
        assert forall|k: int| 0 <= k < r.len() implies pipes_escaped(#[trigger] r[k]) by {
            if k > 0 {
                assert(r[k] == tl[k - 1]);
            }
        }
    } else {
        lemma_split_pieces_escaped(text, s, p + 1);
        assert(r == split_pipes_from(text, s, p + 1));
    }
}

proof fn lemma_trimmed_piece_ok(piece: Seq<char>)
    requires
        pipes_escaped(piece),
    ensures
        cell_ok(trim(piece)),
{
    let u = trim_start(piece);
    let a = piece.len() - u.len();
    crate::text::lemma_trim_start_suffix(piece);
    crate::text::lemma_trim_start_prefix_ws(piece);
    crate::text::lemma_trim_start_first(piece);
    let c = trim_end(u);
    crate::text::lemma_trim_end_prefix(u);
    crate::text::lemma_trim_end_last(u);
    assert forall|q: int| 0 <= q < u.len() && u[q] == '|' implies #[trigger] backslash_run(u, q) % 2 == 1 by {
        assert(u[q] == piece[a + q]);
        if a == 0 {
            assert(u == piece);
        } else {
            assert(is_ws(piece[a - 1]));
            assert(piece.subrange(a, a + u.len()) =~= u);
            lemma_run_local(piece, a, u, q);
        }
    }
    assert forall|q: int| 0 <= q < c.len() && c[q] == '|' implies #[trigger] backslash_run(c, q) % 2 == 1 by {
        assert(c == u.subrange(0, c.len() as int));
        assert(c[q] == u[q]);
        lemma_run_prefix(u, c.len() as int, q);
    }
    if c.len() > 0 {
        assert(c[0] == u[0]);
    }
}

/// Every cell `split_cells` reads can stand as a cell of a rebuilt row.
proof fn lemma_split_cells_ok(text: Seq<char>)
    ensures
        split_cells(text) matches Some(cells) ==> forall|t: int| 0 <= t < cells.len() ==> cell_ok(#[trigger] cells[t]),
{
    let tt = trim(text);
    lemma_split_pieces_escaped(tt, 0, 0);
    let parts = split_unescaped_pipes(tt);
    if parts.len() >= 2 {
        let a = if parts[0].len() == 0 {
            parts.drop_first()
        } else {
            parts
        };
        let b = if a.len() > 0 && a.last().len() == 0 {
            a.drop_last()
        } else {
            a
        };
        assert forall|t: int| 0 <= t < b.len() implies pipes_escaped(#[trigger] b[t]) by {
            if parts[0].len() == 0 {
                assert(b[t] == parts[t + 1]);
            } else {
                assert(b[t] == parts[t]);
            }
        }
        if b.len() > 0 {
            let cells = split_cells(text).unwrap();
            assert forall|t: int| 0 <= t < cells.len() implies cell_ok(#[trigger] cells[t]) by {
                assert(cells[t] == trim(b[t]));
                lemma_trimmed_piece_ok(b[t]);
            }
        }
    }
}

/// Widening keeps a row's cells: a rebuilt row reads back as the row's own
/// cells, in order and unchanged, followed by as many `pad` cells as it was
/// short of `target`.
pub proof fn lemma_rebuilt_row_keeps_cells(text: Seq<char>, target: nat, pad: Seq<char>)
    requires
        split_cells(text) is Some,
        split_cells(text).unwrap().len() <= target,
        pad == Seq::<char>::empty() || pad == seq!['-', '-', '-'],
    ensures
        split_cells(rebuild_row(text, target, pad)) == Some(
            split_cells(text).unwrap() + Seq::new(
                (target - split_cells(text).unwrap().len()) as nat,
                |i: int| pad,
            ),
        ),
{
    let cells = split_cells(text).unwrap();
    let padded = cells + Seq::new((target - cells.len()) as nat, |i: int| pad);
    lemma_split_cells_ok(text);
    lemma_pads_ok();
    assert forall|t: int| 0 <= t < padded.len() implies cell_ok(#[trigger] padded[t]) by {
        if t < cells.len() {
            assert(padded[t] == cells[t]);
        } else {
            assert(padded[t] == pad);
        }
    }
    if cells.len() < target {
        assert(rebuild_row(text, target, pad) == seq!['|', ' '] + join_cells(padded) + seq![' ', '|']);
    } else {
        assert(padded =~= cells);
    }
    lemma_joined_row(padded);
    lemma_split_joined(padded);
}

/// The index just past the first `\n` at or after `from`, or the end of `s`.
pub open spec fn line_end_from(s: Seq<char>, from: int) -> int {
    from + crate::text::first_line_len(s.skip(from))
}

/// The widened header and delimiter lines that replace a ragged table's
/// header and delimiter rows.
pub open spec fn widened_lines(content: Seq<char>, sp: RaggedSpan) -> Seq<char> {
    let header_text = content.subrange(sp.start, sp.end);
    let sep_end = line_end_from(content, sp.end);
    let sep_text = content.subrange(sp.end, sep_end);
    rebuild_row(trim_terminator(header_text), sp.max_cells, seq![]) + line_terminator(header_text)
        + rebuild_row(trim_terminator(sep_text), sp.max_cells, seq!['-', '-', '-'])
        + line_terminator(sep_text)
}

/// Whether a span's ranges lie inside both `content` and `out`.
pub open spec fn span_fits(content: Seq<char>, out: Seq<char>, sp: RaggedSpan) -> bool {
    0 <= sp.start <= sp.end <= content.len() && line_end_from(content, sp.end) <= out.len()
}

/// Applies the spans to `out` back to front, each replacing its header and
/// delimiter lines (ranges taken against `content`) with the widened ones.
pub open spec fn apply_spans(content: Seq<char>, out: Seq<char>, spans: Seq<RaggedSpan>) -> Seq<
    char,
>
    decreases spans.len(),
{
    if spans.len() == 0 {
        out
    } else {
        let sp = spans.last();
        let next = if span_fits(content, out, sp) {
            out.take(sp.start) + widened_lines(content, sp) + out.skip(
                line_end_from(content, sp.end),
            )
        } else {
            out
        };
        apply_spans(content, next, spans.drop_last())
    }
}

/// What [`widen_ragged_tables`] returns for `content`.
pub open spec fn widen_spec(content: Seq<char>) -> Seq<char> {
    apply_spans(content, content, ragged_spans(content))
}

/// Runs `pulldown_cmark::Parser::new_ext` (tables and strikethrough enabled)
/// over `content` with `into_offset_iter`, and reports every event as a
/// [`TableMark`]: its kind and its byte range in `content`. Trusted to equal
/// [`parsed_table_marks`] of `content`, the parser being deterministic;
/// nothing is claimed about which events it produces.
#[verifier::external_body]
fn table_marks(content: &str) -> (r: Vec<TableMark>)
    ensures
        r@ == parsed_table_marks(content@),
{
    let mut out = Vec::new();
    let options = Options::ENABLE_TABLES | Options::ENABLE_STRIKETHROUGH;
    for (event, range) in Parser::new_ext(content, options).into_offset_iter() {
        let kind = match event {
            Event::Start(Tag::Table(alignments)) => MarkKind::TableStart(alignments.len()),
            Event::Start(Tag::TableHead) => MarkKind::TableHead,
            Event::Start(Tag::TableRow) => MarkKind::TableRow,
            Event::End(TagEnd::Table) => MarkKind::TableEnd,
            _ => MarkKind::Other,
        };
        out.push(TableMark { kind, start: range.start, end: range.end });
    }
    out
}

/// The byte offset of every character boundary of `s`: entry `i` is the
/// offset of character `i`, the last entry the total length.
fn char_offsets(s: &[char]) -> (r: Vec<usize>)
    requires
        byte_len(s@) <= usize::MAX,
    ensures
        r@.len() == s@.len() + 1,
        forall|i: int| 0 <= i <= s@.len() ==> r@[i] == byte_len(s@.take(i)),
{
    let mut out: Vec<usize> = Vec::new();
    let mut acc: usize = 0;
    let mut i: usize = 0;
    assert(s@.take(0) =~= Seq::<char>::empty());
    out.push(0);
    assert(s@.take(s@.len() as int) == s@);
    while i < s.len()
        invariant
            0 <= i <= s@.len(),
            byte_len(s@) <= usize::MAX,
            out@.len() == i + 1,
            acc == byte_len(s@.take(i as int)),
            forall|k: int| 0 <= k <= i ==> out@[k] == byte_len(s@.take(k)),
        decreases s@.len() - i,
    {
        proof {
            lemma_byte_len_take(s@, i as int);
            if i + 1 < s@.len() {
                lemma_byte_len_monotone(s@, i + 1, s@.len() as int);
            }
            assert(s@.take(s@.len() as int) == s@);
        }
        let c = s[i];
        let u = c as u32;
        let w: usize = if u <= 0x7f {
            1
        } else if u <= 0x7ff {
            2
        } else if u <= 0xffff {
            3
        } else {
            4
        };
        acc = acc + w;
        out.push(acc);
        i = i + 1;
    }
    out
}

/// The character index whose byte offset is `b`, found by binary search over
/// the strictly increasing `offsets`.
fn char_at_byte_exec(s: &[char], offsets: &Vec<usize>, b: usize) -> (r: Option<usize>)
    requires
        offsets@.len() == s@.len() + 1,
        forall|i: int| 0 <= i <= s@.len() ==> offsets@[i] == byte_len(s@.take(i)),
    ensures
        match r {
            Some(i) => char_at_byte(s@, b as int) == Some(i as int),
            None => char_at_byte(s@, b as int) is None,
        },
{
    let mut lo: usize = 0;
    let mut hi: usize = offsets.len();
    while lo < hi
        invariant
            0 <= lo <= hi <= offsets@.len(),
            offsets@.len() == s@.len() + 1,
            forall|i: int| 0 <= i <= s@.len() ==> offsets@[i] == byte_len(s@.take(i)),
            forall|i: int| 0 <= i < lo ==> offsets@[i] < b,
            forall|i: int| hi <= i < offsets@.len() ==> offsets@[i] > b,
        decreases hi - lo,
    {
        let mid = lo + (hi - lo) / 2;
        if offsets[mid] == b {
            proof {
                lemma_char_at_byte(s@, mid as int);
            }
            return Some(mid);
        } else if offsets[mid] < b {
            proof {
                assert forall|i: int| 0 <= i < mid + 1 implies offsets@[i] < b by {
                    if i < mid {
                        lemma_byte_len_monotone(s@, i, mid as int);
                    }
                }
            }
            lo = mid + 1;
        } else {
            proof {
                assert forall|i: int| mid <= i < offsets@.len() implies offsets@[i] > b by {
                    if i > mid {
                        lemma_byte_len_monotone(s@, mid as int, i);
                    }
                }
            }
            hi = mid;
        }
    }
    proof {
        if char_at_byte(s@, b as int) is Some {
            let w = choose|w: int| 0 <= w <= s@.len() && byte_len(s@.take(w)) == b;
            assert(offsets@[w] == b);
        }
    }
    None
}

struct Ragged {
    start: usize,
    end: usize,
    max_cells: usize,
}

spec fn ragged_model(r: Ragged) -> RaggedSpan {
    RaggedSpan { start: r.start as int, end: r.end as int, max_cells: r.max_cells as nat }
}

spec fn ragged_models(rs: Seq<Ragged>) -> Seq<RaggedSpan> {
    Seq::new(rs.len(), |i: int| ragged_model(rs[i]))
}

fn mark_chars_exec(s: &[char], offsets: &Vec<usize>, m: &TableMark) -> (r: Option<(usize, usize)>)
    requires
        offsets@.len() == s@.len() + 1,
        forall|i: int| 0 <= i <= s@.len() ==> offsets@[i] == byte_len(s@.take(i)),
    ensures
        match r {
            Some((a, b)) => mark_chars(s@, *m) == Some((a as int, b as int)) && a <= b <= s@.len(),
            None => mark_chars(s@, *m) is None,
        },
{
    let a = char_at_byte_exec(s, offsets, m.start);
    let b = char_at_byte_exec(s, offsets, m.end);
    match (a, b) {
        (Some(a), Some(b)) => {
            if a <= b {
                proof {
                    let w = choose|w: int| 0 <= w <= s@.len() && byte_len(s@.take(w)) == m.end;
                }
                Some((a, b))
            } else {
                None
            }
        },
        _ => None,
    }
}

fn mark_cells_exec(s: &[char], offsets: &Vec<usize>, m: &TableMark) -> (r: usize)
    requires
        offsets@.len() == s@.len() + 1,
        forall|i: int| 0 <= i <= s@.len() ==> offsets@[i] == byte_len(s@.take(i)),
    ensures
        r as nat == mark_cells(s@, *m),
{
    match mark_chars_exec(s, offsets, m) {
        Some((a, b)) => {
            let row = trim_newlines_end_slice(slice_subrange(s, a, b));
            match pipe_row_cell_count_exec(row) {
                Some(n) => n,
                None => 0,
            }
        },
        None => 0,
    }
}

spec fn header_model(h: Option<(usize, usize)>) -> Option<(int, int)> {
    match h {
        Some((a, b)) => Some((a as int, b as int)),
        None => None,
    }
}

/// Returns, in source order, every table among the parser's `marks` over `s`
/// whose widest row exceeds its header's column count. Cell counts come from
/// re-splitting each head or body row's own source range, since the parser
/// drops the excess cell from the event stream itself.
fn ragged_tables_of(s: &[char], offsets: &Vec<usize>, marks: &Vec<TableMark>) -> (r: Vec<Ragged>)
    requires
        offsets@.len() == s@.len() + 1,
        forall|i: int| 0 <= i <= s@.len() ==> offsets@[i] == byte_len(s@.take(i)),
    ensures
        ragged_models(r@) == ragged_from(s@, marks@, 0, 0, None, 0),
        forall|i: int| #![trigger r@[i]] 0 <= i < r@.len() ==> r@[i].start <= r@[i].end && r@[i].end <= s@.len(),
{
    let ghost ms = marks@;
    let ghost all = ragged_from(s@, ms, 0, 0, None, 0);
    let mut spans: Vec<Ragged> = Vec::new();
    let mut header_cells: usize = 0;
    let mut header: Option<(usize, usize)> = None;
    let mut max_cells: usize = 0;
    let mut k: usize = 0;
    assert(ragged_models(spans@) + all =~= all);
    while k < marks.len()
        invariant
            ms == marks@,
            all == ragged_from(s@, ms, 0, 0, None, 0),
            offsets@.len() == s@.len() + 1,
            forall|i: int| 0 <= i <= s@.len() ==> offsets@[i] == byte_len(s@.take(i)),
            0 <= k <= marks@.len(),
            all == ragged_models(spans@) + ragged_from(
                s@,
                ms,
                k as int,
                header_cells as nat,
                header_model(header),
                max_cells as nat,
            ),
            header matches Some((a, b)) ==> a <= b <= s@.len(),
            forall|i: int| #![trigger spans@[i]] 0 <= i < spans@.len() ==> spans@[i].start <= spans@[i].end && spans@[i].end <= s@.len(),
        decreases marks@.len() - k,
    {
        let m = &marks[k];
        let ghost before = ragged_from(
            s@,
            ms,
            k as int,
            header_cells as nat,
            header_model(header),
            max_cells as nat,
        );
        match m.kind {
            MarkKind::TableStart(n) => {
                header_cells = n;
                max_cells = n;
                header = None;
            },
            MarkKind::TableHead => {
                header = mark_chars_exec(s, offsets, m);
                let c = mark_cells_exec(s, offsets, m);
                if c > max_cells {
                    max_cells = c;
                }
            },
            MarkKind::TableRow => {
                let c = mark_cells_exec(s, offsets, m);
                if c > max_cells {
                    max_cells = c;
                }
            },
            MarkKind::TableEnd => {
                match header {
                    Some((a, b)) => {
                        if max_cells > header_cells {
                            let ghost old_spans = spans@;
                            spans.push(Ragged { start: a, end: b, max_cells });
                            assert(ragged_models(spans@) =~= ragged_models(old_spans).push(
                                RaggedSpan {
                                    start: a as int,
                                    end: b as int,
                                    max_cells: max_cells as nat,
                                },
                            ));
                            assert(ragged_models(old_spans) + before =~= ragged_models(spans@)
                                + ragged_from(
                                s@,
                                ms,
                                k + 1,
                                header_cells as nat,
                                None,
                                max_cells as nat,
                            ));
                        }
                    },
                    None => {},
                }
                header = None;
            },
            MarkKind::Other => {},
        }
        k = k + 1;
    }
    assert(ragged_models(spans@) + Seq::<RaggedSpan>::empty() =~= ragged_models(spans@));
    spans
}

fn join_cells_exec(cs: &Vec<Vec<char>>, out: &mut Vec<char>)
    ensures
        final(out)@ == old(out)@ + join_cells(seqs_of(cs@)),
{
    let ghost s = seqs_of(cs@);
    let ghost start = out@;
    let mut t: usize = 0;
    assert(s.take(0) =~= Seq::<Seq<char>>::empty());
    assert(out@ =~= start + join_cells(s.take(0)));
    while t < cs.len()
        invariant
            s == seqs_of(cs@),
            0 <= t <= cs@.len(),
            out@ == start + join_cells(s.take(t as int)),
        decreases cs@.len() - t,
    {
        assert(s.take(t + 1).drop_last() == s.take(t as int));
        assert(s.take(t + 1).last() == cs@[t as int]@);
        if t > 0 {
            out.push(' ');
            out.push('|');
            out.push(' ');
        } else {
            assert(s.take(1)[0] == cs@[0]@);
        }
        push_chars(out, cs[t].as_slice());
        proof {
            if t == 0 {
                assert(out@ =~= start + join_cells(s.take(1)));
            } else {
                assert(out@ =~= start + join_cells(s.take(t + 1)));
            }
        }
        t = t + 1;
    }
    assert(s.take(cs@.len() as int) == s);
}

/// Rebuilds a pipe row with exactly `target` cells: `text`'s own cells
/// verbatim, padded up to `target` with `pad` for any it is short by.
fn rebuild_row_exec(text: &[char], target: usize, pad: &[char], out: &mut Vec<char>)
    ensures
        final(out)@ == old(out)@ + rebuild_row(text@, target as nat, pad@),
{
    let mut cells = match split_cells_exec(text) {
        Some(cs) => cs,
        None => Vec::new(),
    };
    let ghost base = seqs_of(cells@);
    let n0 = cells.len();
    while cells.len() < target
        invariant
            n0 <= cells@.len() <= target || (n0 >= target && cells@.len() == n0),
            n0 == base.len(),
            seqs_of(cells@) == base + Seq::new((cells@.len() - n0) as nat, |i: int| pad@),
        decreases target - cells@.len(),
    {
        let ghost old_cells = cells@;
        let p = slice_to_vec(pad);
        cells.push(p);
        assert(seqs_of(cells@) =~= seqs_of(old_cells).push(p@));
        assert(Seq::new((cells@.len() - n0) as nat, |i: int| pad@) =~= Seq::new(
            (old_cells.len() - n0) as nat,
            |i: int| pad@,
        ).push(pad@));
        assert(seqs_of(cells@) =~= base + Seq::new((cells@.len() - n0) as nat, |i: int| pad@));
    }
    proof {
        if base.len() >= target {
            assert(seqs_of(cells@) =~= base);
        }
    }
    let ghost start = out@;
    out.push('|');
    out.push(' ');
    join_cells_exec(&cells, out);
    out.push(' ');
    out.push('|');
    assert(out@ =~= start + (seq!['|', ' '] + join_cells(seqs_of(cells@)) + seq![' ', '|']));
}

/// Widens the header and separator of every table the parser recognizes in
/// `content` whose body contains a row wider than its header, padding them
/// with empty header cells and `---` delimiter cells up to the widest row.
pub fn widen_ragged_tables(content: &str) -> (r: String)
    ensures
        r@ == widen_spec(content@),
{
    let s = chars_of(content);
    let out = widen_ragged_tables_chars(content, s.as_slice());
    string_of(out.as_slice())
}

/// [`widen_ragged_tables`] over the characters `s` of `content`.
pub fn widen_ragged_tables_chars(content: &str, s: &[char]) -> (r: Vec<char>)
    requires
        s@ == content@,
    ensures
        r@ == widen_spec(s@),
{
    let marks = table_marks(content);
    widen_chars_with_marks(content, s, &marks)
}

/// What widening makes of `content`, given the parser's events `ms` over it:
/// every ragged table the events show gets its header and delimiter lines
/// widened.
pub open spec fn widen_from_marks(content: Seq<char>, ms: Seq<TableMark>) -> Seq<char> {
    apply_spans(content, content, ragged_from(content, ms, 0, 0, None, 0))
}

/// Widens the ragged tables of `content` that the parser's events `marks`
/// show: [`widen_ragged_tables`] with the parser's events given.
pub fn widen_with_marks(content: &str, marks: &Vec<TableMark>) -> (r: String)
    ensures
        r@ == widen_from_marks(content@, marks@),
{
    let s = chars_of(content);
    let out = widen_chars_with_marks(content, s.as_slice(), marks);
    string_of(out.as_slice())
}

fn widen_chars_with_marks(content: &str, s: &[char], marks: &Vec<TableMark>) -> (r: Vec<char>)
    requires
        s@ == content@,
    ensures
        r@ == widen_from_marks(s@, marks@),
{
    let bytes = content.as_bytes();
    let nbytes = bytes.len();
    proof {
        lemma_byte_len_encode(content@);
    }
    assert(byte_len(s@) <= usize::MAX);
    let offsets = char_offsets(s);
    let spans = ragged_tables_of(s, &offsets, marks);
    let ghost sm = ragged_models(spans@);
    let mut out = slice_to_vec(s);
    let mut k = spans.len();
    assert(sm.take(k as int) == sm);
    while k > 0
        invariant
            sm == ragged_models(spans@),
            sm == ragged_from(s@, marks@, 0, 0, None, 0),
            0 <= k <= spans@.len(),
            forall|i: int| #![trigger spans@[i]] 0 <= i < spans@.len() ==> spans@[i].start
                <= spans@[i].end && spans@[i].end <= s@.len(),
            widen_from_marks(s@, marks@) == apply_spans(s@, out@, sm.take(k as int)),
        decreases k,
    {
        k = k - 1;
        let sp = &spans[k];
        assert(sm.take(k + 1).last() == ragged_model(*sp));
        assert(sm.take(k + 1).drop_last() == sm.take(k as int));
        let se = crate::text::first_line_end(s, sp.end);
        if se <= out.len() {
            let mut next: Vec<char> = Vec::new();
            push_chars(&mut next, slice_subrange(out.as_slice(), 0, sp.start));
            let ghost n1 = next@;
            let header_text = slice_subrange(s, sp.start, sp.end);
            let empty: Vec<char> = Vec::new();
            assert(empty@ =~= Seq::<char>::empty());
            rebuild_row_exec(trim_newlines_end_slice(header_text), sp.max_cells, empty.as_slice(), &mut next);
            let ht = line_terminator_exec(header_text);
            push_chars(&mut next, ht.as_slice());
            let sep_text = slice_subrange(s, sp.end, se);
            let dashes = vec!['-', '-', '-'];
            assert(dashes@ =~= seq!['-', '-', '-']);
            rebuild_row_exec(trim_newlines_end_slice(sep_text), sp.max_cells, dashes.as_slice(), &mut next);
            let st = line_terminator_exec(sep_text);
            push_chars(&mut next, st.as_slice());
            let ghost n2 = next@;
            push_chars(&mut next, slice_subrange(out.as_slice(), se, out.len()));
            assert(n2 =~= n1 + widened_lines(s@, ragged_model(*sp)));
            assert(out@.subrange(0, sp.start as int) == out@.take(sp.start as int));
            assert(out@.subrange(se as int, out@.len() as int) == out@.skip(se as int));
            assert(next@ =~= out@.take(sp.start as int) + widened_lines(s@, ragged_model(*sp))
                + out@.skip(se as int));
            out = next;
        }
    }
    out
}

} // verus!
