//! Character-level helpers shared by the text passes: Unicode whitespace,
//! trimming, line splitting and substring search, each with its model over
//! `Seq<char>`.

use vstd::prelude::*;
use vstd::slice::slice_subrange;

verus! {

/// Unicode `White_Space`, the property `char::is_whitespace` tests.
pub open spec fn is_ws(c: char) -> bool {
    let u = c as u32;
    ||| 0x09 <= u <= 0x0d
    ||| u == 0x20
    ||| u == 0x85
    ||| u == 0xa0
    ||| u == 0x1680
    ||| 0x2000 <= u <= 0x200a
    ||| u == 0x2028
    ||| u == 0x2029
    ||| u == 0x202f
    ||| u == 0x205f
    ||| u == 0x3000
}

/// `char::is_whitespace`: whether `c` has the Unicode `White_Space` property.
pub fn is_whitespace(c: char) -> (r: bool)
    ensures
        r == is_ws(c),
{
    let u = c as u32;
    (0x09 <= u && u <= 0x0d) || u == 0x20 || u == 0x85 || u == 0xa0 || u == 0x1680 || (0x2000
        <= u && u <= 0x200a) || u == 0x2028 || u == 0x2029 || u == 0x202f || u == 0x205f || u
        == 0x3000
}

/// `s` with its leading whitespace removed (`str::trim_start`).
pub open spec fn trim_start(s: Seq<char>) -> Seq<char>
    decreases s.len(),
{
    if s.len() > 0 && is_ws(s[0]) {
        trim_start(s.drop_first())
    } else {
        s
    }
}

/// `s` with its trailing whitespace removed (`str::trim_end`).
pub open spec fn trim_end(s: Seq<char>) -> Seq<char>
    decreases s.len(),
{
    if s.len() > 0 && is_ws(s.last()) {
        trim_end(s.drop_last())
    } else {
        s
    }
}

/// `s` with whitespace removed from both ends (`str::trim`).
pub open spec fn trim(s: Seq<char>) -> Seq<char> {
    trim_end(trim_start(s))
}

pub open spec fn is_newline_char(c: char) -> bool {
    c == '\n' || c == '\r'
}

/// `s` with every trailing `\n` and `\r` removed (`trim_end_matches(['\n', '\r'])`).
pub open spec fn trim_newlines_end(s: Seq<char>) -> Seq<char>
    decreases s.len(),
{
    if s.len() > 0 && is_newline_char(s.last()) {
        trim_newlines_end(s.drop_last())
    } else {
        s
    }
}

/// `s` with every leading `\n` and `\r` removed (`trim_start_matches(['\n', '\r'])`).
pub open spec fn trim_newlines_start(s: Seq<char>) -> Seq<char>
    decreases s.len(),
{
    if s.len() > 0 && is_newline_char(s[0]) {
        trim_newlines_start(s.drop_first())
    } else {
        s
    }
}

pub open spec fn starts_with(s: Seq<char>, p: Seq<char>) -> bool {
    p.len() <= s.len() && s.subrange(0, p.len() as int) == p
}

pub open spec fn ends_with(s: Seq<char>, p: Seq<char>) -> bool {
    p.len() <= s.len() && s.subrange(s.len() - p.len(), s.len() as int) == p
}

/// Whether `p` occurs in `s` at position `i`.
pub open spec fn occurs_at(s: Seq<char>, p: Seq<char>, i: int) -> bool {
    0 <= i && i + p.len() <= s.len() && s.subrange(i, i + p.len()) == p
}

/// `str::contains` with a string pattern.
pub open spec fn contains_seq(s: Seq<char>, p: Seq<char>) -> bool {
    exists|i: int| occurs_at(s, p, i)
}

/// Length of the first line of `s`, its `\n` included (`split_inclusive('\n')`).
pub open spec fn first_line_len(s: Seq<char>) -> nat
    decreases s.len(),
{
    if s.len() == 0 {
        0
    } else if s[0] == '\n' {
        1
    } else {
        1 + first_line_len(s.drop_first())
    }
}

/// `s.split_inclusive('\n')`: the lines of `s`, each keeping its `\n`; the
/// last line has none when `s` does not end with one.
pub open spec fn lines(s: Seq<char>) -> Seq<Seq<char>>
    decreases s.len(),
{
    if s.len() == 0 {
        seq![]
    } else {
        let n = first_line_len(s);
        if 0 < n <= s.len() {
            seq![s.take(n as int)] + lines(s.skip(n as int))
        } else {
            seq![s]
        }
    }
}

/// The concatenation of a sequence of lines.
pub open spec fn concat(ls: Seq<Seq<char>>) -> Seq<char>
    decreases ls.len(),
{
    if ls.len() == 0 {
        seq![]
    } else {
        concat(ls.drop_last()) + ls.last()
    }
}

/// The first line ends at the first `\n`, or at the end of `s`.
pub proof fn lemma_first_line_len(s: Seq<char>)
    ensures
        s.len() > 0 ==> 0 < first_line_len(s) <= s.len(),
        forall|k: int| 0 <= k < first_line_len(s) - 1 ==> s[k] != '\n',
        first_line_len(s) < s.len() ==> s[first_line_len(s) - 1] == '\n',
        first_line_len(s) == s.len() && s.len() > 0 && s.last() != '\n' ==> forall|k: int|
            0 <= k < s.len() ==> s[k] != '\n',
    decreases s.len(),
{
    if s.len() > 0 && s[0] != '\n' {
        lemma_first_line_len(s.drop_first());
        assert forall|k: int| 0 <= k < first_line_len(s) - 1 implies s[k] != '\n' by {
            if k > 0 {
                assert(s[k] == s.drop_first()[k - 1]);
            }
        }
        if first_line_len(s) == s.len() && s.last() != '\n' {
            assert forall|k: int| 0 <= k < s.len() implies s[k] != '\n' by {
                if k > 0 {
                    assert(s[k] == s.drop_first()[k - 1]);
                }
            }
        }
    }
}

/// The characters of `s`, as the owned vector the passes work on.
pub fn chars_of(s: &str) -> (r: Vec<char>)
    ensures
        r@ == s@,
{
    broadcast use vstd::string::axiom_spec_iter;

    let mut out: Vec<char> = Vec::new();
    for c in it: s.chars()
        invariant
            it.seq() == s@,
            out@ == it.seq().take(it.index() as int),
    {
        assert(it.seq().take(it.index() + 1) =~= it.seq().take(it.index() as int).push(c));
        out.push(c);
    }
    assert(s@.take(s@.len() as int) =~= s@);
    out
}

/// `String::from_iter` over characters: a `String` holding exactly the
/// characters of `v`, in order.
#[verifier::external_body]
pub(crate) fn string_of(v: &[char]) -> (r: String)
    ensures
        r@ == v@,
{
    String::from_iter(v)
}

/// `str::trim_start` over a character slice.
pub fn trim_start_slice(s: &[char]) -> (r: &[char])
    ensures
        r@ == trim_start(s@),
{
    let mut i: usize = 0;
    assert(s@.skip(0) == s@);
    while i < s.len() && is_whitespace(s[i])
        invariant
            0 <= i <= s@.len(),
            trim_start(s@) == trim_start(s@.skip(i as int)),
        decreases s@.len() - i,
    {
        assert(s@.skip(i as int).drop_first() == s@.skip(i + 1));
        i = i + 1;
    }
    assert(s@.skip(i as int) == s@.subrange(i as int, s@.len() as int));
    slice_subrange(s, i, s.len())
}

/// `str::trim_end` over a character slice.
pub fn trim_end_slice(s: &[char]) -> (r: &[char])
    ensures
        r@ == trim_end(s@),
{
    let mut j: usize = s.len();
    assert(s@.take(s@.len() as int) == s@);
    while j > 0 && is_whitespace(s[j - 1])
        invariant
            0 <= j <= s@.len(),
            trim_end(s@) == trim_end(s@.take(j as int)),
        decreases j,
    {
        assert(s@.take(j as int).drop_last() == s@.take(j - 1));
        j = j - 1;
    }
    assert(s@.take(j as int) == s@.subrange(0, j as int));
    slice_subrange(s, 0, j)
}

/// `str::trim` over a character slice.
pub fn trim_slice(s: &[char]) -> (r: &[char])
    ensures
        r@ == trim(s@),
{
    let a = trim_start_slice(s);
    trim_end_slice(a)
}

/// `trim_end_matches(['\n', '\r'])` over a character slice.
pub fn trim_newlines_end_slice(s: &[char]) -> (r: &[char])
    ensures
        r@ == trim_newlines_end(s@),
{
    let mut j: usize = s.len();
    assert(s@.take(s@.len() as int) == s@);
    while j > 0 && (s[j - 1] == '\n' || s[j - 1] == '\r')
        invariant
            0 <= j <= s@.len(),
            trim_newlines_end(s@) == trim_newlines_end(s@.take(j as int)),
        decreases j,
    {
        assert(s@.take(j as int).drop_last() == s@.take(j - 1));
        j = j - 1;
    }
    assert(s@.take(j as int) == s@.subrange(0, j as int));
    slice_subrange(s, 0, j)
}

/// `trim_start_matches(['\n', '\r'])` over a character slice.
pub fn trim_newlines_start_slice(s: &[char]) -> (r: &[char])
    ensures
        r@ == trim_newlines_start(s@),
{
    let mut i: usize = 0;
    assert(s@.skip(0) == s@);
    while i < s.len() && (s[i] == '\n' || s[i] == '\r')
        invariant
            0 <= i <= s@.len(),
            trim_newlines_start(s@) == trim_newlines_start(s@.skip(i as int)),
        decreases s@.len() - i,
    {
        assert(s@.skip(i as int).drop_first() == s@.skip(i + 1));
        i = i + 1;
    }
    assert(s@.skip(i as int) == s@.subrange(i as int, s@.len() as int));
    slice_subrange(s, i, s.len())
}

/// Whether `s` starts with `p`.
pub fn starts_with_slice(s: &[char], p: &[char]) -> (r: bool)
    ensures
        r == starts_with(s@, p@),
{
    if p.len() > s.len() {
        return false;
    }
    let mut i: usize = 0;
    while i < p.len()
        invariant
            p@.len() <= s@.len(),
            0 <= i <= p@.len(),
            forall|k: int| 0 <= k < i ==> s@[k] == p@[k],
        decreases p@.len() - i,
    {
        if s[i] != p[i] {
            assert(s@.subrange(0, p@.len() as int)[i as int] != p@[i as int]);
            return false;
        }
        i = i + 1;
    }
    assert(s@.subrange(0, p@.len() as int) =~= p@);
    true
}

/// Whether `p` occurs in `s` at position `at`.
pub fn occurs_at_slice(s: &[char], p: &[char], at: usize) -> (r: bool)
    ensures
        r == occurs_at(s@, p@, at as int),
{
    if at > s.len() || p.len() > s.len() - at {
        return false;
    }
    let mut i: usize = 0;
    while i < p.len()
        invariant
            at + p@.len() <= s@.len(),
            s@.len() <= usize::MAX,
            0 <= i <= p@.len(),
            forall|k: int| 0 <= k < i ==> s@[at + k] == p@[k],
        decreases p@.len() - i,
    {
        if s[at + i] != p[i] {
            assert(s@.subrange(at as int, at + p@.len())[i as int] != p@[i as int]);
            return false;
        }
        i = i + 1;
    }
    assert(s@.subrange(at as int, at + p@.len()) =~= p@);
    true
}

/// Whether `p` occurs anywhere in `s` (`str::contains`).
pub fn contains_slice(s: &[char], p: &[char]) -> (r: bool)
    ensures
        r == contains_seq(s@, p@),
{
    let mut at: usize = 0;
    loop
        invariant
            0 <= at <= s@.len(),
            forall|k: int| 0 <= k < at ==> !occurs_at(s@, p@, k),
        ensures
            forall|k: int| 0 <= k <= s@.len() ==> !occurs_at(s@, p@, k),
        decreases s@.len() - at,
    {
        if occurs_at_slice(s, p, at) {
            return true;
        }
        if at == s.len() {
            break;
        }
        at = at + 1;
    }
    assert forall|k: int| !occurs_at(s@, p@, k) by {
        if 0 <= k <= s@.len() {
        }
    }
    false
}

/// The views of a sequence of character vectors.
pub open spec fn seqs_of(v: Seq<Vec<char>>) -> Seq<Seq<char>> {
    Seq::new(v.len(), |i: int| v[i]@)
}

/// Index of the first `c` in `s`, if any (`str::find` with a `char`).
pub open spec fn find_char(s: Seq<char>, c: char) -> Option<int> {
    if exists|k: int| 0 <= k < s.len() && s[k] == c && forall|j: int| 0 <= j < k ==> s[j] != c {
        Some(
            choose|k: int| 0 <= k < s.len() && s[k] == c && forall|j: int| 0 <= j < k ==> s[j] != c,
        )
    } else {
        None
    }
}

/// `find_char` is the first occurrence, when there is one.
pub proof fn lemma_find_char(s: Seq<char>, c: char, k: int)
    requires
        0 <= k <= s.len(),
        forall|j: int| 0 <= j < k ==> s[j] != c,
        k == s.len() || s[k] == c,
    ensures
        find_char(s, c) == (if k == s.len() { None::<int> } else { Some(k) }),
{
    if k < s.len() {
        let w = choose|w: int|
            0 <= w < s.len() && s[w] == c && forall|j: int| 0 <= j < w ==> s[j] != c;
        assert(0 <= w < s.len() && s[w] == c && forall|j: int| 0 <= j < w ==> s[j] != c);
        if w < k {
        } else if w > k {
            assert(s[k] != c);
        }
    }
}

/// The first index of `c` in `s` (`str::find`).
pub fn find_char_slice(s: &[char], c: char) -> (r: Option<usize>)
    ensures
        match r {
            Some(k) => find_char(s@, c) == Some(k as int),
            None => find_char(s@, c) == None::<int>,
        },
{
    let mut i: usize = 0;
    while i < s.len()
        invariant
            0 <= i <= s@.len(),
            forall|j: int| 0 <= j < i ==> s@[j] != c,
        decreases s@.len() - i,
    {
        if s[i] == c {
            proof {
                lemma_find_char(s@, c, i as int);
            }
            return Some(i);
        }
        i = i + 1;
    }
    proof {
        lemma_find_char(s@, c, i as int);
    }
    None
}

/// Whether some character of `s` is whitespace.
pub open spec fn has_ws(s: Seq<char>) -> bool {
    exists|k: int| 0 <= k < s.len() && is_ws(s[k])
}

pub fn has_whitespace(s: &[char]) -> (r: bool)
    ensures
        r == has_ws(s@),
{
    let mut i: usize = 0;
    while i < s.len()
        invariant
            0 <= i <= s@.len(),
            forall|j: int| 0 <= j < i ==> !is_ws(s@[j]),
        decreases s@.len() - i,
    {
        if is_whitespace(s[i]) {
            return true;
        }
        i = i + 1;
    }
    false
}

/// `first_line_len` of the suffix of `s` from `pos`, as an end index.
pub fn first_line_end(s: &[char], pos: usize) -> (e: usize)
    requires
        pos <= s@.len(),
    ensures
        e == pos + first_line_len(s@.skip(pos as int)),
        e <= s@.len(),
{
    let mut j: usize = pos;
    while j < s.len() && s[j] != '\n'
        invariant
            pos <= j <= s@.len(),
            first_line_len(s@.skip(pos as int)) == (j - pos) + first_line_len(s@.skip(j as int)),
        decreases s@.len() - j,
    {
        assert(s@.skip(j as int).drop_first() == s@.skip(j + 1));
        j = j + 1;
    }
    if j < s.len() {
        j + 1
    } else {
        j
    }
}

/// Splitting lines from `pos` takes the first line, then the rest.
pub proof fn lemma_lines_step(s: Seq<char>, pos: int)
    requires
        0 <= pos < s.len(),
    ensures
        0 < first_line_len(s.skip(pos)) <= s.len() - pos,
        lines(s.skip(pos)) == seq![s.subrange(pos, pos + first_line_len(s.skip(pos)))] + lines(
            s.skip(pos + first_line_len(s.skip(pos)))),
{
    let t = s.skip(pos);
    lemma_first_line_len(t);
    let n = first_line_len(t);
    assert(t.take(n as int) == s.subrange(pos, pos + n));
    assert(t.skip(n as int) == s.skip(pos + n));
}

/// `s.split_inclusive('\n')`, collected.
pub fn split_lines(s: &[char]) -> (r: Vec<Vec<char>>)
    ensures
        seqs_of(r@) == lines(s@),
{
    let mut out: Vec<Vec<char>> = Vec::new();
    let mut pos: usize = 0;
    assert(s@.skip(0) == s@);
    while pos < s.len()
        invariant
            0 <= pos <= s@.len(),
            lines(s@) == seqs_of(out@) + lines(s@.skip(pos as int)),
        decreases s@.len() - pos,
    {
        proof {
            lemma_lines_step(s@, pos as int);
        }
        let e = first_line_end(s, pos);
        let line = vstd::slice::slice_to_vec(slice_subrange(s, pos, e));
        let ghost old_out = out@;
        out.push(line);
        assert(seqs_of(out@) == seqs_of(old_out) + seq![line@]);
        pos = e;
    }
    assert(s@.skip(pos as int).len() == 0);
    assert(lines(s@.skip(pos as int)) == Seq::<Seq<char>>::empty());
    assert(seqs_of(out@) + Seq::<Seq<char>>::empty() == seqs_of(out@));
    out
}

/// Concatenating a line before others.
pub proof fn lemma_concat_prepend(a: Seq<char>, rest: Seq<Seq<char>>)
    ensures
        concat(seq![a] + rest) == a + concat(rest),
    decreases rest.len(),
{
    if rest.len() == 0 {
        assert(seq![a] + rest == seq![a]);
        assert(seq![a].drop_last() == Seq::<Seq<char>>::empty());
        assert(concat(Seq::<Seq<char>>::empty()) == Seq::<char>::empty());
        assert(seq![a].last() == a);
        assert(concat(seq![a]) == concat(seq![a].drop_last()) + seq![a].last());
        assert(Seq::<char>::empty() + a == a);
        assert(a + Seq::<char>::empty() == a);
    } else {
        assert((seq![a] + rest).drop_last() == seq![a] + rest.drop_last());
        lemma_concat_prepend(a, rest.drop_last());
        assert((seq![a] + rest).last() == rest.last());
        assert(a + concat(rest.drop_last()) + rest.last() == a + (concat(rest.drop_last())
            + rest.last()));
    }
}

/// Concatenation distributes over appending sequences of lines.
pub proof fn lemma_concat_append(ls: Seq<Seq<char>>, rs: Seq<Seq<char>>)
    ensures
        concat(ls + rs) == concat(ls) + concat(rs),
    decreases rs.len(),
{
    if rs.len() == 0 {
        assert(ls + rs == ls);
        assert(concat(ls) + Seq::<char>::empty() == concat(ls));
    } else {
        assert((ls + rs).drop_last() == ls + rs.drop_last());
        lemma_concat_append(ls, rs.drop_last());
        assert((ls + rs).last() == rs.last());
        assert(concat(ls) + concat(rs.drop_last()) + rs.last() == concat(ls) + (concat(
            rs.drop_last()) + rs.last()));
    }
}

/// Concatenating one more line of a prefix.
pub proof fn lemma_concat_take(ls: Seq<Seq<char>>, k: int)
    requires
        0 <= k < ls.len(),
    ensures
        concat(ls.take(k + 1)) == concat(ls.take(k)) + ls[k],
{
    assert(ls.take(k + 1).drop_last() == ls.take(k));
}

/// The lines of `s` concatenate back to `s`.
pub proof fn lemma_concat_lines(s: Seq<char>)
    ensures
        concat(lines(s)) == s,
    decreases s.len(),
{
    if s.len() > 0 {
        lemma_lines_step(s, 0);
        assert(s.skip(0) == s);
        let n = first_line_len(s);
        lemma_concat_lines(s.skip(n as int));
        lemma_concat_prepend(s.subrange(0, n as int), lines(s.skip(n as int)));
        assert(s.subrange(0, n as int) + s.skip(n as int) == s);
    }
}

/// Splitting a sequence of lines at `k` splits their concatenation.
pub proof fn lemma_concat_split(ls: Seq<Seq<char>>, k: int)
    requires
        0 <= k <= ls.len(),
    ensures
        concat(ls) == concat(ls.take(k)) + concat(ls.skip(k)),
{
    assert(ls == ls.take(k) + ls.skip(k));
    lemma_concat_append(ls.take(k), ls.skip(k));
}

/// Whether two character slices hold the same characters.
pub fn chars_eq(a: &[char], b: &[char]) -> (r: bool)
    ensures
        r == (a@ == b@),
{
    if a.len() != b.len() {
        return false;
    }
    let mut i: usize = 0;
    while i < a.len()
        invariant
            a@.len() == b@.len(),
            0 <= i <= a@.len(),
            forall|k: int| 0 <= k < i ==> a@[k] == b@[k],
        decreases a@.len() - i,
    {
        if a[i] != b[i] {
            return false;
        }
        i = i + 1;
    }
    assert(a@ =~= b@);
    true
}

/// Appends the characters of `s` to `out`.
pub fn push_chars(out: &mut Vec<char>, s: &[char])
    ensures
        final(out)@ == old(out)@ + s@,
{
    let mut i: usize = 0;
    let ghost start = out@;
    while i < s.len()
        invariant
            0 <= i <= s@.len(),
            out@ == start + s@.take(i as int),
        decreases s@.len() - i,
    {
        out.push(s[i]);
        assert(s@.take(i + 1) == s@.take(i as int).push(s@[i as int]));
        i = i + 1;
    }
    assert(s@.take(s@.len() as int) == s@);
}

/// Whether `l` is one line: not empty, with no `\n` but possibly a last one.
pub open spec fn is_proper_line(l: Seq<char>) -> bool {
    l.len() > 0 && forall|t: int| 0 <= t < l.len() - 1 ==> #[trigger] l[t] != '\n'
}

/// Whether `ls` is a sequence of lines of which all but the last end with `\n`.
pub open spec fn proper_lines(ls: Seq<Seq<char>>) -> bool {
    forall|i: int|
        0 <= i < ls.len() ==> is_proper_line(#[trigger] ls[i]) && (i < ls.len() - 1 ==> ls[i].last()
            == '\n')
}

proof fn lemma_first_line_len_of_line(a: Seq<char>, x: Seq<char>)
    requires
        is_proper_line(a),
        a.last() == '\n' || x.len() == 0,
    ensures
        first_line_len(a + x) == a.len(),
    decreases a.len(),
{
    assert((a + x)[0] == a[0]);
    if a.len() == 1 {
        if a[0] != '\n' {
            assert(x.len() == 0);
            assert((a + x).drop_first().len() == 0);
            assert(first_line_len((a + x).drop_first()) == 0);
        }
    } else {
        assert(a[0] != '\n');
        let b = a.drop_first();
        assert(b.last() == a.last());
        assert forall|t: int| 0 <= t < b.len() - 1 implies #[trigger] b[t] != '\n' by {
            assert(b[t] == a[t + 1]);
        }
        lemma_first_line_len_of_line(b, x);
        assert((a + x).drop_first() =~= b + x);
        assert(first_line_len(a + x) == 1 + first_line_len(b + x));
    }
}

/// The lines of `s` are proper lines, all but the last ending with `\n`.
pub proof fn lemma_lines_proper(s: Seq<char>)
    ensures
        proper_lines(lines(s)),
    decreases s.len(),
{
    if s.len() > 0 {
        lemma_first_line_len(s);
        let n = first_line_len(s);
        let head = s.take(n as int);
        let rest = s.skip(n as int);
        lemma_lines_proper(rest);
        assert forall|t: int| 0 <= t < head.len() - 1 implies #[trigger] head[t] != '\n' by {
            assert(head[t] == s[t]);
        }
        let ls = lines(s);
        assert(ls == seq![head] + lines(rest));
        assert forall|i: int| 0 <= i < ls.len() implies is_proper_line(#[trigger] ls[i]) && (i
            < ls.len() - 1 ==> ls[i].last() == '\n') by {
            if i == 0 {
                if ls.len() > 1 {
                    assert(lines(rest).len() > 0);
                    assert(rest.len() > 0);
                    assert(head.last() == s[n - 1]);
                }
            } else {
                assert(ls[i] == lines(rest)[i - 1]);
            }
        }
    }
}

/// Proper lines, concatenated, split back into themselves.
pub proof fn lemma_lines_of_proper(ls: Seq<Seq<char>>)
    requires
        proper_lines(ls),
    ensures
        lines(concat(ls)) == ls,
    decreases ls.len(),
{
    if ls.len() > 0 {
        let a = ls[0];
        let rest = ls.drop_first();
        assert(ls == seq![a] + rest);
        assert(is_proper_line(ls[0]));
        assert forall|i: int| 0 <= i < rest.len() implies is_proper_line(#[trigger] rest[i]) && (i
            < rest.len() - 1 ==> rest[i].last() == '\n') by {
            assert(rest[i] == ls[i + 1]);
        }
        lemma_lines_of_proper(rest);
        lemma_concat_prepend(a, rest);
        let x = concat(rest);
        if rest.len() > 0 {
            assert(ls[0].last() == '\n');
        } else {
            assert(x.len() == 0);
        }
        lemma_first_line_len_of_line(a, x);
        let s = a + x;
        assert(s.take(a.len() as int) =~= a);
        assert(s.skip(a.len() as int) =~= x);
    } else {
        assert(concat(ls) =~= Seq::<char>::empty());
    }
}

/// `trim_start` leaves a suffix.
pub proof fn lemma_trim_start_suffix(s: Seq<char>)
    ensures
        trim_start(s).len() <= s.len(),
        trim_start(s) == s.skip(s.len() - trim_start(s).len()),
    decreases s.len(),
{
    if s.len() > 0 && is_ws(s[0]) {
        lemma_trim_start_suffix(s.drop_first());
        let t = trim_start(s.drop_first());
        assert(s.drop_first().skip(s.drop_first().len() - t.len()) == s.skip(s.len() - t.len()));
    } else {
        assert(s.skip(0) == s);
    }
}

/// What `trim_start` drops is whitespace.
pub proof fn lemma_trim_start_prefix_ws(s: Seq<char>)
    ensures
        forall|t: int| 0 <= t < s.len() - trim_start(s).len() ==> is_ws(#[trigger] s[t]),
    decreases s.len(),
{
    if s.len() > 0 && is_ws(s[0]) {
        let d = s.drop_first();
        lemma_trim_start_prefix_ws(d);
        assert forall|t: int| 0 <= t < s.len() - trim_start(s).len() implies is_ws(#[trigger] s[t]) by {
            if t > 0 {
                assert(s[t] == d[t - 1]);
            }
        }
    }
}

/// `trim_end` leaves a prefix.
pub proof fn lemma_trim_end_prefix(s: Seq<char>)
    ensures
        trim_end(s).len() <= s.len(),
        trim_end(s) == s.take(trim_end(s).len() as int),
    decreases s.len(),
{
    if s.len() > 0 && is_ws(s.last()) {
        let d = s.drop_last();
        lemma_trim_end_prefix(d);
        assert(d.take(trim_end(d).len() as int) =~= s.take(trim_end(d).len() as int));
    } else {
        assert(s.take(s.len() as int) =~= s);
    }
}

/// What `trim_start` leaves does not start with whitespace.
pub proof fn lemma_trim_start_first(s: Seq<char>)
    ensures
        trim_start(s).len() > 0 ==> !is_ws(trim_start(s)[0]),
    decreases s.len(),
{
    if s.len() > 0 && is_ws(s[0]) {
        lemma_trim_start_first(s.drop_first());
    }
}

/// What `trim_end` leaves does not end with whitespace.
pub proof fn lemma_trim_end_last(s: Seq<char>)
    ensures
        trim_end(s).len() > 0 ==> !is_ws(trim_end(s).last()),
    decreases s.len(),
{
    if s.len() > 0 && is_ws(s.last()) {
        lemma_trim_end_last(s.drop_last());
    }
}

/// The ASCII digit for `d < 10`.
pub open spec fn digit_char(d: nat) -> char {
    ((48 + d) as u8) as char
}

/// The decimal rendering of `n`.
pub open spec fn decimal(n: nat) -> Seq<char>
    decreases n,
{
    if n < 10 {
        seq![digit_char(n)]
    } else {
        decimal(n / 10).push(digit_char(n % 10))
    }
}

/// Appends the decimal rendering of `n` to `out`.
pub fn push_decimal(out: &mut Vec<char>, n: u64)
    ensures
        final(out)@ == old(out)@ + decimal(n as nat),
    decreases n,
{
    if n < 10 {
        out.push(((48u8 + n as u8) as char));
    } else {
        push_decimal(out, n / 10);
        out.push(((48u8 + (n % 10) as u8) as char));
    }
}

} // verus!
