//! YAML frontmatter extraction, so the CommonMark parser, which reads a bare
//! leading `---` line as a setext-heading underline, never has to see it; and
//! normalization of the extracted block.

use vstd::prelude::*;
use vstd::slice::slice_subrange;
use vstd::slice::slice_to_vec;

use crate::text::{
    lemma_trim_start_suffix, lemma_trim_start_prefix_ws, lemma_trim_end_prefix, lemma_trim_start_first,
    is_newline_char, is_proper_line, proper_lines, lemma_lines_proper, lemma_lines_of_proper,
    lemma_concat_prepend, lemma_concat_append, lemma_find_char,     chars_of, chars_eq, concat, find_char, find_char_slice, has_whitespace, has_ws, push_chars, trim_slice, is_ws, lemma_concat_lines, lemma_concat_split,
    lemma_concat_take, lines, seqs_of, split_lines, starts_with, string_of, trim, trim_end,
    trim_end_slice, trim_newlines_end, trim_newlines_end_slice, trim_newlines_start,
    trim_newlines_start_slice, trim_start, trim_start_slice,
};

verus! {

/// `---`
pub open spec fn dashes() -> Seq<char> {
    seq!['-', '-', '-']
}

/// `...`
pub open spec fn dots() -> Seq<char> {
    seq!['.', '.', '.']
}

/// A line that closes a frontmatter block: `---` or `...`, ignoring its line terminator.
pub open spec fn is_closing_line(l: Seq<char>) -> bool {
    trim_newlines_end(l) == dashes() || trim_newlines_end(l) == dots()
}

/// Index of the first closing line at or after `k`.
pub open spec fn first_closing_from(ls: Seq<Seq<char>>, k: int) -> Option<int>
    decreases ls.len() - k,
{
    if k < 0 || k >= ls.len() {
        None
    } else if is_closing_line(ls[k]) {
        Some(k)
    } else {
        first_closing_from(ls, k + 1)
    }
}

/// The first closing line from `k` is one, and none comes before it.
pub proof fn lemma_first_closing_from(ls: Seq<Seq<char>>, k: int)
    ensures
        first_closing_from(ls, k) matches Some(c) ==> {
            &&& 0 <= k <= c < ls.len()
            &&& is_closing_line(ls[c])
            &&& forall|t: int| k <= t < c ==> !is_closing_line(ls[t])
        },
        first_closing_from(ls, k) is None ==> forall|t: int|
            0 <= k <= t < ls.len() ==> !is_closing_line(ls[t]),
    decreases ls.len() - k,
{
    if 0 <= k < ls.len() && !is_closing_line(ls[k]) {
        lemma_first_closing_from(ls, k + 1);
    }
}

/// What [`extract`] returns: `(frontmatter, remainder)`.
///
/// The frontmatter is the verbatim block from the opening `---` line (after
/// any leading whitespace of `input`) through the first closing `---`/`...`
/// line; the remainder is everything after it with leading `\n`/`\r`
/// trimmed. Without such a block: `(None, input)`.
pub open spec fn extract_spec(input: Seq<char>) -> (Option<Seq<char>>, Seq<char>) {
    let trimmed = trim_start(input);
    let lw = input.len() - trimmed.len();
    if !starts_with(trimmed, dashes()) {
        (None, input)
    } else {
        let ls = lines(trimmed);
        if ls.len() == 0 || trim_end(ls[0]) != dashes() {
            (None, input)
        } else {
            match first_closing_from(ls, 1) {
                None => (None, input),
                Some(k) => {
                    let end = lw + concat(ls.take(k + 1)).len();
                    (Some(input.subrange(lw, end)), trim_newlines_start(input.skip(end)))
                },
            }
        }
    }
}

fn is_dashes(s: &[char]) -> (r: bool)
    ensures
        r == (s@ == dashes()),
{
    let r = s.len() == 3 && s[0] == '-' && s[1] == '-' && s[2] == '-';
    if r {
        assert(s@ =~= dashes());
    }
    r
}

fn is_closing(l: &[char]) -> (r: bool)
    ensures
        r == is_closing_line(l@),
{
    let t = trim_newlines_end_slice(l);
    let r = t.len() == 3 && ((t[0] == '-' && t[1] == '-' && t[2] == '-') || (t[0] == '.' && t[1]
        == '.' && t[2] == '.'));
    if t.len() == 3 && t[0] == '-' && t[1] == '-' && t[2] == '-' {
        assert(t@ =~= dashes());
    }
    if t.len() == 3 && t[0] == '.' && t[1] == '.' && t[2] == '.' {
        assert(t@ =~= dots());
    }
    r
}

/// Finds the first closing line at or after `from` in `ls`.
fn find_closing(ls: &Vec<Vec<char>>, from: usize) -> (r: Option<usize>)
    requires
        from <= ls@.len(),
    ensures
        match r {
            Some(k) => first_closing_from(seqs_of(ls@), from as int) == Some(k as int),
            None => first_closing_from(seqs_of(ls@), from as int) == None::<int>,
        },
{
    let mut k = from;
    while k < ls.len()
        invariant
            from <= k <= ls@.len(),
            first_closing_from(seqs_of(ls@), from as int) == first_closing_from(
                seqs_of(ls@),
                k as int,
            ),
        decreases ls@.len() - k,
    {
        if is_closing(ls[k].as_slice()) {
            return Some(k);
        }
        k = k + 1;
    }
    None
}

/// Splits a leading YAML frontmatter block off `input`.
///
/// Returns `(frontmatter, remainder)`: `frontmatter` is `Some` verbatim block
/// (opening and closing delimiters included) when `input` opens with a `---`
/// line and a matching closing `---` or `...` line follows; `remainder` is
/// everything after that block, with leading blank lines trimmed.
/// `frontmatter` is `None`, and `remainder` is all of `input`, when no such
/// block is found.
pub fn extract(input: &str) -> (r: (Option<String>, String))
    ensures
        r.0.is_some() == extract_spec(input@).0.is_some(),
        r.0.is_some() ==> r.0.unwrap()@ == extract_spec(input@).0.unwrap(),
        r.1@ == extract_spec(input@).1,
{
    let v = chars_of(input);
    let (a, b) = extract_chars(v.as_slice());
    match a {
        Some(fm) => (Some(string_of(fm.as_slice())), string_of(b.as_slice())),
        None => (None, string_of(b.as_slice())),
    }
}

/// [`extract`] over characters.
pub fn extract_chars(input: &[char]) -> (r: (Option<Vec<char>>, Vec<char>))
    ensures
        r.0.is_some() == extract_spec(input@).0.is_some(),
        r.0.is_some() ==> r.0.unwrap()@ == extract_spec(input@).0.unwrap(),
        r.1@ == extract_spec(input@).1,
{
    let trimmed = trim_start_slice(input);
    proof {
        lemma_trim_start_suffix(input@);
    }
    let lw = input.len() - trimmed.len();
    if !(trimmed.len() >= 3 && trimmed[0] == '-' && trimmed[1] == '-' && trimmed[2] == '-') {
        proof {
            if starts_with(trimmed@, dashes()) {
                assert(trimmed@.subrange(0, 3)[0] == '-');
                assert(trimmed@.subrange(0, 3)[1] == '-');
                assert(trimmed@.subrange(0, 3)[2] == '-');
            }
        }
        return (None, slice_to_vec(input));
    }
    assert(trimmed@.subrange(0, 3) =~= dashes());
    let ls = split_lines(trimmed);
    if ls.len() == 0 || !is_dashes(trim_end_slice(ls[0].as_slice())) {
        return (None, slice_to_vec(input));
    }
    let closing = find_closing(&ls, 1);
    match closing {
        None => (None, slice_to_vec(input)),
        Some(k) => {
            let ghost lsv = seqs_of(ls@);
            proof {
                lemma_first_closing_from(lsv, 1);
            }
            let mut end: usize = lw;
            let mut i: usize = 0;
            proof {
                lemma_concat_lines(trimmed@);
                lemma_concat_split(lsv, k + 1);
                assert(lsv.take(0) =~= Seq::<Seq<char>>::empty());
            }
            while i <= k
                invariant
                    k < ls@.len(),
                    lsv == seqs_of(ls@),
                    concat(lsv) == trimmed@,
                    concat(lsv) == concat(lsv.take(k + 1)) + concat(lsv.skip(k + 1)),
                    0 <= i <= k + 1,
                    lw + trimmed@.len() == input@.len(),
                    input@.len() <= usize::MAX,
                    end == lw + concat(lsv.take(i as int)).len(),
                decreases k + 1 - i,
            {
                proof {
                    lemma_concat_take(lsv, i as int);
                    lemma_concat_split(lsv.take(k + 1), i + 1);
                    assert(lsv.take(k + 1).take(i + 1) == lsv.take(i + 1));
                    assert(ls@[i as int]@ == lsv[i as int]);
                    assert(concat(lsv.take(i + 1)).len() <= concat(lsv.take(k + 1)).len());
                    assert(concat(lsv.take(k + 1)).len() <= trimmed@.len());
                }
                end = end + ls[i].len();
                i = i + 1;
            }
            let fm = slice_to_vec(slice_subrange(input, lw, end));
            let rest = trim_newlines_start_slice(slice_subrange(input, end, input.len()));
            assert(input@.subrange(end as int, input@.len() as int) == input@.skip(end as int));
            (Some(fm), slice_to_vec(rest))
        },
    }
}

/// A frontmatter entry's value: a same-line scalar (`key: value`), or a block
/// sequence (`key:` followed by indented `- item` lines). These are the only
/// two shapes the `un*` renderers emit. Nothing here interprets a value's
/// content (quotes, escapes, numbers): each is kept as the exact text found
/// after the delimiter, so normalization can never corrupt a value it does not
/// understand.
pub enum FmValueModel {
    Scalar(Seq<char>),
    List(Seq<Seq<char>>),
}

pub struct FmEntryModel {
    pub key: Seq<char>,
    pub value: FmValueModel,
}

/// `"  "`
pub open spec fn two_spaces() -> Seq<char> {
    seq![' ', ' ']
}

/// `"- "`
pub open spec fn dash_space() -> Seq<char> {
    seq!['-', ' ']
}

/// A block-sequence item line: indented by two spaces, then `- `.
pub open spec fn is_item_line(l: Seq<char>) -> bool {
    let c = trim_newlines_end(l);
    starts_with(c, two_spaces()) && starts_with(trim_start(c), dash_space())
}

/// The item text of a block-sequence item line, after its `- `.
pub open spec fn item_text(l: Seq<char>) -> Seq<char> {
    trim_start(trim_newlines_end(l)).skip(2)
}

/// The index just past the run of item lines starting at `j`.
pub open spec fn item_run_end(ls: Seq<Seq<char>>, j: int) -> int
    decreases ls.len() - j,
{
    if 0 <= j < ls.len() && is_item_line(ls[j]) {
        item_run_end(ls, j + 1)
    } else {
        j
    }
}

/// The item run from `j` holds item lines only, up to a line that is not one.
pub proof fn lemma_item_run_end(ls: Seq<Seq<char>>, j: int)
    ensures
        item_run_end(ls, j) >= j,
        0 <= j ==> item_run_end(ls, j) <= ls.len() || item_run_end(ls, j) == j,
        forall|t: int| j <= t < item_run_end(ls, j) ==> 0 <= t < ls.len() && is_item_line(ls[t]),
        0 <= item_run_end(ls, j) < ls.len() ==> !is_item_line(ls[item_run_end(ls, j)]),
    decreases ls.len() - j,
{
    if 0 <= j < ls.len() && is_item_line(ls[j]) {
        lemma_item_run_end(ls, j + 1);
    }
}

/// The items of the lines `ls[a..b]`.
pub open spec fn items_between(ls: Seq<Seq<char>>, a: int, b: int) -> Seq<Seq<char>> {
    Seq::new((b - a) as nat, |t: int| item_text(ls[a + t]))
}

/// Whether a body line cannot start an entry: blank, or indented.
pub open spec fn bad_entry_start(content: Seq<char>) -> bool {
    trim(content).len() == 0 || (content.len() > 0 && (content[0] == ' ' || content[0] == '\t'))
}

/// The entries of the body lines `ls[i..]`, or `None` when they are not all
/// shaped like one of the two modelled forms.
pub open spec fn parse_entries_from(ls: Seq<Seq<char>>, i: int) -> Option<Seq<FmEntryModel>>
    decreases ls.len() - i,
{
    if i < 0 || i >= ls.len() {
        Some(seq![])
    } else {
        let content = trim_newlines_end(ls[i]);
        if bad_entry_start(content) {
            None
        } else {
            match find_char(content, ':') {
                None => None,
                Some(colon) => {
                    let key = trim_end(content.take(colon));
                    if key.len() == 0 || has_ws(key) {
                        None
                    } else {
                        let rest = trim_start(content.skip(colon + 1));
                        if rest.len() == 0 {
                            let j = item_run_end(ls, i + 1);
                            proof {
                                lemma_item_run_end(ls, i + 1);
                            }
                            if j <= i + 1 {
                                None
                            } else {
                                match parse_entries_from(ls, j) {
                                    None => None,
                                    Some(tail) => Some(
                                        seq![
                                            FmEntryModel {
                                                key,
                                                value: FmValueModel::List(items_between(ls, i + 1, j)),
                                            },
                                        ] + tail,
                                    ),
                                }
                            }
                        } else {
                            match parse_entries_from(ls, i + 1) {
                                None => None,
                                Some(tail) => Some(
                                    seq![FmEntryModel { key, value: FmValueModel::Scalar(rest) }]
                                        + tail,
                                ),
                            }
                        }
                    }
                },
            }
        }
    }
}

/// `items` with every item that repeats an earlier one dropped (first occurrence wins).
pub open spec fn dedup_items(items: Seq<Seq<char>>) -> Seq<Seq<char>>
    decreases items.len(),
{
    if items.len() == 0 {
        seq![]
    } else if items.drop_last().contains(items.last()) {
        dedup_items(items.drop_last())
    } else {
        dedup_items(items.drop_last()).push(items.last())
    }
}

/// Items joined with NUL separators.
pub open spec fn join_nul(items: Seq<Seq<char>>) -> Seq<char>
    decreases items.len(),
{
    if items.len() == 0 {
        seq![]
    } else if items.len() == 1 {
        items[0]
    } else {
        join_nul(items.drop_last()) + seq!['\0'] + items.last()
    }
}

/// The text an entry's value is compared by when looking for exact duplicates.
pub open spec fn canonical(v: FmValueModel) -> Seq<char> {
    match v {
        FmValueModel::Scalar(s) => seq!['s', ':'] + s,
        FmValueModel::List(items) => seq!['l', ':'] + join_nul(items),
    }
}

pub open spec fn dedup_value(v: FmValueModel) -> FmValueModel {
    match v {
        FmValueModel::Scalar(s) => FmValueModel::Scalar(s),
        FmValueModel::List(items) => FmValueModel::List(dedup_items(items)),
    }
}

/// Whether entry `e`, list-deduplicated, exactly repeats one of `prev`.
pub open spec fn repeats_earlier(prev: Seq<FmEntryModel>, e: FmEntryModel) -> bool {
    exists|j: int|
        0 <= j < prev.len() && prev[j].key == e.key && canonical(dedup_value(prev[j].value))
            == canonical(dedup_value(e.value))
}

/// Drops an entry that exactly repeats an earlier `(key, value)` pair, and a
/// list item that exactly repeats an earlier item within the same entry.
/// Order-preserving: first occurrence wins.
pub open spec fn dedup_entries(es: Seq<FmEntryModel>) -> Seq<FmEntryModel>
    decreases es.len(),
{
    if es.len() == 0 {
        seq![]
    } else {
        let e = es.last();
        if repeats_earlier(es.drop_last(), e) {
            dedup_entries(es.drop_last())
        } else {
            dedup_entries(es.drop_last()).push(
                FmEntryModel { key: e.key, value: dedup_value(e.value) },
            )
        }
    }
}

/// The canonical rendering of one list item.
pub open spec fn render_item(item: Seq<char>) -> Seq<char> {
    seq![' ', ' ', '-', ' '] + item + seq!['\n']
}

pub open spec fn render_items(items: Seq<Seq<char>>) -> Seq<char>
    decreases items.len(),
{
    if items.len() == 0 {
        seq![]
    } else {
        render_items(items.drop_last()) + render_item(items.last())
    }
}

/// The canonical rendering of one entry: `key: value` or `key:` and its items.
pub open spec fn render_entry(e: FmEntryModel) -> Seq<char> {
    match e.value {
        FmValueModel::Scalar(v) => e.key + seq![':', ' '] + v + seq!['\n'],
        FmValueModel::List(items) => e.key + seq![':', '\n'] + render_items(items),
    }
}

pub open spec fn render_entries(es: Seq<FmEntryModel>) -> Seq<char>
    decreases es.len(),
{
    if es.len() == 0 {
        seq![]
    } else {
        render_entries(es.drop_last()) + render_entry(es.last())
    }
}

/// What [`normalize`] returns for `block`.
pub open spec fn normalize_spec(block: Seq<char>) -> Seq<char> {
    let ls = lines(block);
    if ls.len() == 0 || trim_end(ls[0]) != dashes() {
        block
    } else {
        match first_closing_from(ls, 1) {
            None => block,
            Some(k) => match parse_entries_from(ls.subrange(1, k), 0) {
                None => block,
                Some(es) => ls[0] + render_entries(dedup_entries(es)) + ls[k],
            },
        }
    }
}

enum FmValue {
    Scalar(Vec<char>),
    List(Vec<Vec<char>>),
}

struct FmEntry {
    key: Vec<char>,
    value: FmValue,
}

spec fn value_model(v: FmValue) -> FmValueModel {
    match v {
        FmValue::Scalar(s) => FmValueModel::Scalar(s@),
        FmValue::List(items) => FmValueModel::List(seqs_of(items@)),
    }
}

spec fn entry_model(e: FmEntry) -> FmEntryModel {
    FmEntryModel { key: e.key@, value: value_model(e.value) }
}

spec fn entry_models(es: Seq<FmEntry>) -> Seq<FmEntryModel> {
    Seq::new(es.len(), |i: int| entry_model(es[i]))
}

/// `None` propagates; otherwise `p` is prepended.
pub open spec fn prepend_opt(p: Seq<FmEntryModel>, r: Option<Seq<FmEntryModel>>) -> Option<
    Seq<FmEntryModel>,
> {
    match r {
        None => None,
        Some(t) => Some(p + t),
    }
}

fn is_item(l: &[char]) -> (r: bool)
    ensures
        r == is_item_line(l@),
{
    let c = trim_newlines_end_slice(l);
    if !(c.len() >= 2 && c[0] == ' ' && c[1] == ' ') {
        proof {
            if starts_with(c@, two_spaces()) {
                assert(c@.subrange(0, 2)[0] == ' ');
                assert(c@.subrange(0, 2)[1] == ' ');
            }
        }
        return false;
    }
    assert(c@.subrange(0, 2) =~= two_spaces());
    let t = trim_start_slice(c);
    if !(t.len() >= 2 && t[0] == '-' && t[1] == ' ') {
        proof {
            if starts_with(t@, dash_space()) {
                assert(t@.subrange(0, 2)[0] == '-');
                assert(t@.subrange(0, 2)[1] == ' ');
            }
        }
        return false;
    }
    assert(t@.subrange(0, 2) =~= dash_space());
    true
}

fn item_of(l: &[char]) -> (r: Vec<char>)
    requires
        is_item_line(l@),
    ensures
        r@ == item_text(l@),
{
    let c = trim_newlines_end_slice(l);
    let t = trim_start_slice(c);
    assert(t@.subrange(0, 2) == dash_space());
    assert(t@.subrange(2, t@.len() as int) == t@.skip(2));
    slice_to_vec(slice_subrange(t, 2, t.len()))
}

fn parse_entries(body: &Vec<Vec<char>>) -> (r: Option<Vec<FmEntry>>)
    ensures
        match r {
            None => parse_entries_from(seqs_of(body@), 0) is None,
            Some(es) => parse_entries_from(seqs_of(body@), 0) == Some(entry_models(es@)),
        },
{
    let ghost ls = seqs_of(body@);
    let mut out: Vec<FmEntry> = Vec::new();
    let mut i: usize = 0;
    assert(entry_models(out@) + Seq::<FmEntryModel>::empty() =~= Seq::<FmEntryModel>::empty());
    assert(prepend_opt(entry_models(out@), parse_entries_from(ls, 0)) == parse_entries_from(ls, 0))
        by {
        match parse_entries_from(ls, 0) {
            None => {},
            Some(tl) => {
                assert(entry_models(out@) + tl =~= tl);
            },
        }
    }
    while i < body.len()
        invariant
            ls == seqs_of(body@),
            0 <= i <= body@.len(),
            parse_entries_from(ls, 0) == prepend_opt(entry_models(out@), parse_entries_from(ls, i as int)),
        decreases body@.len() - i,
    {
        assert(body@[i as int]@ == ls[i as int]);
        let content = trim_newlines_end_slice(body[i].as_slice());
        if trim_slice(content).len() == 0 || (content.len() > 0 && (content[0] == ' ' || content[0]
            == '\t')) {
            return None;
        }
        let colon = match find_char_slice(content, ':') {
            None => {
                return None;
            },
            Some(c) => c,
        };
        let key_slice = trim_end_slice(slice_subrange(content, 0, colon));
        assert(content@.subrange(0, colon as int) == content@.take(colon as int));
        if key_slice.len() == 0 || has_whitespace(key_slice) {
            return None;
        }
        let key = slice_to_vec(key_slice);
        assert(content@.subrange(colon + 1, content@.len() as int) == content@.skip(colon + 1));
        let rest = trim_start_slice(slice_subrange(content, colon + 1, content.len()));
        let ghost old_out = out@;
        if rest.len() == 0 {
            let mut items: Vec<Vec<char>> = Vec::new();
            let mut j: usize = i + 1;
            proof {
                lemma_item_run_end(ls, i + 1);
                assert(seqs_of(items@) =~= items_between(ls, i + 1, j as int));
            }
            while j < body.len() && is_item(body[j].as_slice())
                invariant
                    ls == seqs_of(body@),
                    i + 1 <= j <= body@.len(),
                    item_run_end(ls, i + 1) == item_run_end(ls, j as int),
                    seqs_of(items@) == items_between(ls, i + 1, j as int),
                decreases body@.len() - j,
            {
                assert(body@[j as int]@ == ls[j as int]);
                let it = item_of(body[j].as_slice());
                let ghost old_items = items@;
                items.push(it);
                assert(seqs_of(items@) =~= seqs_of(old_items).push(it@));
                assert(items_between(ls, i + 1, j + 1) =~= items_between(ls, i + 1, j as int).push(
                    item_text(ls[j as int]),
                ));
                j = j + 1;
            }
            proof {
                if j < body@.len() {
                    assert(body@[j as int]@ == ls[j as int]);
                }
                lemma_item_run_end(ls, j as int);
            }
            if j == i + 1 {
                return None;
            }
            let entry = FmEntry { key, value: FmValue::List(items) };
            out.push(entry);
            proof {
                assert(entry_models(out@) =~= entry_models(old_out).push(entry_model(entry)));
                match parse_entries_from(ls, j as int) {
                    None => {},
                    Some(tl) => {
                        assert(entry_models(old_out) + (seq![entry_model(entry)] + tl)
                            =~= entry_models(out@) + tl);
                    },
                }
            }
            i = j;
        } else {
            let entry = FmEntry { key, value: FmValue::Scalar(slice_to_vec(rest)) };
            out.push(entry);
            proof {
                assert(entry_models(out@) =~= entry_models(old_out).push(entry_model(entry)));
                match parse_entries_from(ls, i + 1) {
                    None => {},
                    Some(tl) => {
                        assert(entry_models(old_out) + (seq![entry_model(entry)] + tl)
                            =~= entry_models(out@) + tl);
                    },
                }
            }
            i = i + 1;
        }
    }
    assert(entry_models(out@) + Seq::<FmEntryModel>::empty() =~= entry_models(out@));
    Some(out)
}

/// Deduplicating keeps every item that occurs.
pub proof fn lemma_dedup_items_contains(items: Seq<Seq<char>>, x: Seq<char>)
    ensures
        dedup_items(items).contains(x) == items.contains(x),
    decreases items.len(),
{
    if items.len() > 0 {
        let p = items.drop_last();
        lemma_dedup_items_contains(p, x);
        assert(items == p.push(items.last()));
        if items.contains(x) {
            let k = choose|k: int| 0 <= k < items.len() && items[k] == x;
            if k < p.len() {
                assert(p[k] == x);
            }
        }
        if p.contains(x) {
            let k = choose|k: int| 0 <= k < p.len() && p[k] == x;
            assert(items[k] == x);
        }
        if !p.contains(items.last()) {
            let d = dedup_items(p);
            assert(d.push(items.last())[d.len() as int] == items.last());
            if d.push(items.last()).contains(x) {
                let k = choose|k: int| 0 <= k < d.len() + 1 && d.push(items.last())[k] == x;
                if k < d.len() {
                    assert(d[k] == x);
                }
            }
            if d.contains(x) {
                let k = choose|k: int| 0 <= k < d.len() && d[k] == x;
                assert(d.push(items.last())[k] == x);
            }
        }
    }
}

fn contains_line(v: &Vec<Vec<char>>, x: &[char]) -> (r: bool)
    ensures
        r == seqs_of(v@).contains(x@),
{
    let mut i: usize = 0;
    while i < v.len()
        invariant
            0 <= i <= v@.len(),
            forall|k: int| 0 <= k < i ==> v@[k]@ != x@,
        decreases v@.len() - i,
    {
        if chars_eq(v[i].as_slice(), x) {
            assert(seqs_of(v@)[i as int] == x@);
            return true;
        }
        i = i + 1;
    }
    proof {
        if seqs_of(v@).contains(x@) {
            let k = choose|k: int| 0 <= k < seqs_of(v@).len() && seqs_of(v@)[k] == x@;
            assert(v@[k]@ == x@);
        }
    }
    false
}

fn dedup_item_list(items: &Vec<Vec<char>>) -> (r: Vec<Vec<char>>)
    ensures
        seqs_of(r@) == dedup_items(seqs_of(items@)),
{
    let ghost s = seqs_of(items@);
    let mut kept: Vec<Vec<char>> = Vec::new();
    let mut t: usize = 0;
    assert(s.take(0) =~= Seq::<Seq<char>>::empty());
    assert(seqs_of(kept@) =~= dedup_items(s.take(0)));
    while t < items.len()
        invariant
            s == seqs_of(items@),
            0 <= t <= items@.len(),
            seqs_of(kept@) == dedup_items(s.take(t as int)),
        decreases items@.len() - t,
    {
        let item = items[t].as_slice();
        assert(s.take(t + 1).drop_last() == s.take(t as int));
        assert(s.take(t + 1).last() == item@);
        proof {
            lemma_dedup_items_contains(s.take(t as int), item@);
        }
        if !contains_line(&kept, item) {
            let ghost old_kept = kept@;
            kept.push(slice_to_vec(item));
            assert(seqs_of(kept@) =~= seqs_of(old_kept).push(item@));
        }
        t = t + 1;
    }
    assert(s.take(items@.len() as int) == s);
    kept
}

fn join_nul_exec(items: &Vec<Vec<char>>) -> (r: Vec<char>)
    ensures
        r@ == join_nul(seqs_of(items@)),
{
    let ghost s = seqs_of(items@);
    let mut out: Vec<char> = Vec::new();
    let mut t: usize = 0;
    assert(s.take(0) =~= Seq::<Seq<char>>::empty());
    while t < items.len()
        invariant
            s == seqs_of(items@),
            0 <= t <= items@.len(),
            out@ == join_nul(s.take(t as int)),
        decreases items@.len() - t,
    {
        assert(s.take(t + 1).drop_last() == s.take(t as int));
        assert(s.take(t + 1).last() == items@[t as int]@);
        if t > 0 {
            out.push('\0');
        } else {
            assert(s.take(1)[0] == items@[0]@);
        }
        push_chars(&mut out, items[t].as_slice());
        proof {
            if t == 0 {
                assert(out@ =~= items@[0]@);
            } else {
                assert(out@ =~= join_nul(s.take(t as int)) + seq!['\0'] + items@[t as int]@);
            }
        }
        t = t + 1;
    }
    assert(s.take(items@.len() as int) == s);
    out
}

fn dedup_value_exec(v: &FmValue) -> (r: FmValue)
    ensures
        value_model(r) == dedup_value(value_model(*v)),
{
    match v {
        FmValue::Scalar(s) => FmValue::Scalar(slice_to_vec(s.as_slice())),
        FmValue::List(items) => FmValue::List(dedup_item_list(items)),
    }
}

fn canonical_exec(v: &FmValue) -> (r: Vec<char>)
    ensures
        r@ == canonical(value_model(*v)),
{
    let mut out: Vec<char> = Vec::new();
    match v {
        FmValue::Scalar(s) => {
            out.push('s');
            out.push(':');
            push_chars(&mut out, s.as_slice());
            assert(out@ =~= seq!['s', ':'] + s@);
        },
        FmValue::List(items) => {
            out.push('l');
            out.push(':');
            let j = join_nul_exec(items);
            push_chars(&mut out, j.as_slice());
            assert(out@ =~= seq!['l', ':'] + j@);
        },
    }
    out
}

/// Whether `d` holds an entry with `e`'s key whose value compares equal to `e`'s
/// list-deduplicated value.
pub open spec fn holds_match(d: Seq<FmEntryModel>, e: FmEntryModel) -> bool {
    exists|q: int|
        0 <= q < d.len() && d[q].key == e.key && canonical(d[q].value) == canonical(
            dedup_value(e.value),
        )
}

/// Deduplicating a value twice is deduplicating it once.
pub proof fn lemma_dedup_value_idem(v: FmValueModel)
    ensures
        dedup_value(dedup_value(v)) == dedup_value(v),
{
    match v {
        FmValueModel::Scalar(_) => {},
        FmValueModel::List(items) => {
            lemma_dedup_items_idem(items);
        },
    }
}

/// Deduplicated items are pairwise distinct.
pub proof fn lemma_dedup_items_distinct(items: Seq<Seq<char>>)
    ensures
        forall|a: int, b: int|
            0 <= a < b < dedup_items(items).len() ==> dedup_items(items)[a] != dedup_items(
                items,
            )[b],
    decreases items.len(),
{
    if items.len() > 0 {
        let p = items.drop_last();
        lemma_dedup_items_distinct(p);
        lemma_dedup_items_contains(p, items.last());
        if !p.contains(items.last()) {
            let d = dedup_items(p);
            assert forall|a: int, b: int|
                0 <= a < b < d.push(items.last()).len() implies d.push(items.last())[a]
                != d.push(items.last())[b] by {
                if b == d.len() {
                    if d[a] == items.last() {
                        assert(d.contains(items.last()));
                    }
                }
            }
        }
    }
}

/// Deduplicating a list with no repeated item changes nothing.
pub proof fn lemma_dedup_items_of_distinct(items: Seq<Seq<char>>)
    requires
        forall|a: int, b: int| 0 <= a < b < items.len() ==> items[a] != items[b],
    ensures
        dedup_items(items) == items,
    decreases items.len(),
{
    if items.len() > 0 {
        let p = items.drop_last();
        lemma_dedup_items_of_distinct(p);
        if p.contains(items.last()) {
            let k = choose|k: int| 0 <= k < p.len() && p[k] == items.last();
            assert(items[k] == items[items.len() - 1]);
        }
        assert(p.push(items.last()) == items);
    }
}

/// Deduplicating items is idempotent.
pub proof fn lemma_dedup_items_idem(items: Seq<Seq<char>>)
    ensures
        dedup_items(dedup_items(items)) == dedup_items(items),
{
    lemma_dedup_items_distinct(items);
    lemma_dedup_items_of_distinct(dedup_items(items));
}

/// An entry repeats an earlier one exactly when the deduplicated earlier
/// entries already hold a match for it.
pub proof fn lemma_repeats_earlier(prev: Seq<FmEntryModel>, e: FmEntryModel)
    ensures
        repeats_earlier(prev, e) == holds_match(dedup_entries(prev), e),
    decreases prev.len(),
{
    if prev.len() > 0 {
        let p = prev.drop_last();
        let x = prev.last();
        lemma_repeats_earlier(p, e);
        lemma_repeats_earlier(p, x);
        let d = dedup_entries(p);
        let xd = FmEntryModel { key: x.key, value: dedup_value(x.value) };
        lemma_dedup_value_idem(x.value);
        assert(canonical(xd.value) == canonical(dedup_value(x.value)));
        if repeats_earlier(prev, e) {
            let j = choose|j: int|
                0 <= j < prev.len() && prev[j].key == e.key && canonical(
                    dedup_value(prev[j].value),
                ) == canonical(dedup_value(e.value));
            if j < p.len() {
                assert(p[j] == prev[j]);
                assert(repeats_earlier(p, e));
                let q = choose|q: int|
                    0 <= q < d.len() && d[q].key == e.key && canonical(d[q].value) == canonical(
                        dedup_value(e.value),
                    );
                if !repeats_earlier(p, x) {
                    assert(d.push(xd)[q] == d[q]);
                }
            } else {
                if repeats_earlier(p, x) {
                    let q = choose|q: int|
                        0 <= q < d.len() && d[q].key == x.key && canonical(d[q].value) == canonical(
                            dedup_value(x.value),
                        );
                    assert(d[q].key == e.key);
                } else {
                    assert(d.push(xd)[d.len() as int] == xd);
                }
            }
        }
        if holds_match(dedup_entries(prev), e) {
            if repeats_earlier(p, x) {
                assert(holds_match(d, e));
                let j = choose|j: int|
                    0 <= j < p.len() && p[j].key == e.key && canonical(dedup_value(p[j].value))
                        == canonical(dedup_value(e.value));
                assert(prev[j] == p[j]);
            } else {
                let dd = d.push(xd);
                let q = choose|q: int|
                    0 <= q < dd.len() && dd[q].key == e.key && canonical(dd[q].value) == canonical(
                        dedup_value(e.value),
                    );
                if q < d.len() {
                    assert(dd[q] == d[q]);
                    assert(holds_match(d, e));
                    let j = choose|j: int|
                        0 <= j < p.len() && p[j].key == e.key && canonical(dedup_value(p[j].value))
                            == canonical(dedup_value(e.value));
                    assert(prev[j] == p[j]);
                } else {
                    assert(prev[prev.len() - 1] == x);
                }
            }
        }
    }
}

fn dedup_entry_list(es: Vec<FmEntry>) -> (r: Vec<FmEntry>)
    ensures
        entry_models(r@) == dedup_entries(entry_models(es@)),
{
    let ghost m = entry_models(es@);
    let mut out: Vec<FmEntry> = Vec::new();
    let mut t: usize = 0;
    assert(m.take(0) =~= Seq::<FmEntryModel>::empty());
    assert(entry_models(out@) =~= dedup_entries(m.take(0)));
    while t < es.len()
        invariant
            m == entry_models(es@),
            0 <= t <= es@.len(),
            entry_models(out@) == dedup_entries(m.take(t as int)),
        decreases es@.len() - t,
    {
        let e = &es[t];
        assert(m[t as int] == entry_model(*e));
        let d = dedup_value_exec(&e.value);
        let canon = canonical_exec(&d);
        let mut found = false;
        let mut q: usize = 0;
        while q < out.len()
            invariant
                0 <= q <= out@.len(),
                found == exists|w: int|
                    0 <= w < q && entry_models(out@)[w].key == e.key@ && canonical(
                        entry_models(out@)[w].value,
                    ) == canon@,
            decreases out@.len() - q,
        {
            let oc = canonical_exec(&out[q].value);
            assert(entry_models(out@)[q as int] == entry_model(out@[q as int]));
            if chars_eq(out[q].key.as_slice(), e.key.as_slice()) && chars_eq(
                oc.as_slice(),
                canon.as_slice(),
            ) {
                found = true;
            }
            q = q + 1;
        }
        let ghost prev = m.take(t as int);
        assert(m.take(t + 1).drop_last() == prev);
        assert(m.take(t + 1).last() == m[t as int]);
        proof {
            lemma_repeats_earlier(prev, m[t as int]);
        }
        if !found {
            let ghost old_out = out@;
            let key = slice_to_vec(e.key.as_slice());
            out.push(FmEntry { key, value: d });
            assert(entry_models(out@) =~= entry_models(old_out).push(
                FmEntryModel { key: m[t as int].key, value: dedup_value(m[t as int].value) },
            ));
        }
        t = t + 1;
    }
    assert(m.take(es@.len() as int) == m);
    out
}

fn render_entry_exec(out: &mut Vec<char>, e: &FmEntry)
    ensures
        final(out)@ == old(out)@ + render_entry(entry_model(*e)),
{
    let ghost start = out@;
    push_chars(out, e.key.as_slice());
    match &e.value {
        FmValue::Scalar(v) => {
            out.push(':');
            out.push(' ');
            push_chars(out, v.as_slice());
            out.push('\n');
            assert(out@ =~= start + (e.key@ + seq![':', ' '] + v@ + seq!['\n']));
        },
        FmValue::List(items) => {
            out.push(':');
            out.push('\n');
            let ghost head = out@;
            assert(head =~= start + (e.key@ + seq![':', '\n']));
            let ghost s = seqs_of(items@);
            let mut t: usize = 0;
            assert(s.take(0) =~= Seq::<Seq<char>>::empty());
            while t < items.len()
                invariant
                    s == seqs_of(items@),
                    0 <= t <= items@.len(),
                    out@ == head + render_items(s.take(t as int)),
                decreases items@.len() - t,
            {
                assert(s.take(t + 1).drop_last() == s.take(t as int));
                assert(s.take(t + 1).last() == items@[t as int]@);
                out.push(' ');
                out.push(' ');
                out.push('-');
                out.push(' ');
                push_chars(out, items[t].as_slice());
                out.push('\n');
                assert(out@ =~= head + render_items(s.take(t as int)) + render_item(
                    items@[t as int]@,
                ));
                t = t + 1;
            }
            assert(s.take(items@.len() as int) == s);
            assert(out@ =~= start + (e.key@ + seq![':', '\n'] + render_items(s)));
        },
    }
}

/// Normalizes a frontmatter block extracted by [`extract`]: canonicalizes
/// `key`/`:`/value spacing, and drops an entry that exactly repeats an earlier
/// one (same key **and** same value) or a list item that exactly repeats an
/// earlier item in the same list. Key order is left as authored.
///
/// A same-key entry with a *different* value is never dropped: only an exact
/// duplicate carries no unique content.
///
/// Falls back to returning `block` unchanged for anything not shaped like one
/// of the two modelled value forms (a blank line inside the block, a nested
/// value, a nested `- item` list, ...).
pub fn normalize(block: &str) -> (r: String)
    ensures
        r@ == normalize_spec(block@),
{
    let v = chars_of(block);
    let out = normalize_chars(v.as_slice());
    string_of(out.as_slice())
}

/// [`normalize`] over characters.
pub fn normalize_chars(block: &[char]) -> (r: Vec<char>)
    ensures
        r@ == normalize_spec(block@),
{
    let ls = split_lines(block);
    let ghost lsv = seqs_of(ls@);
    if ls.len() == 0 || !is_dashes(trim_end_slice(ls[0].as_slice())) {
        return slice_to_vec(block);
    }
    let k = match find_closing(&ls, 1) {
        None => {
            return slice_to_vec(block);
        },
        Some(k) => k,
    };
    proof {
        lemma_first_closing_from(lsv, 1);
    }
    let mut body: Vec<Vec<char>> = Vec::new();
    let mut i: usize = 1;
    while i < k
        invariant
            lsv == seqs_of(ls@),
            1 <= i <= k < ls@.len(),
            seqs_of(body@) == lsv.subrange(1, i as int),
        decreases k - i,
    {
        let ghost old_body = body@;
        let line = slice_to_vec(ls[i].as_slice());
        body.push(line);
        assert(seqs_of(body@) =~= seqs_of(old_body).push(line@));
        assert(lsv[i as int] == line@);
        assert(seqs_of(body@) =~= lsv.subrange(1, i + 1));
        i = i + 1;
    }
    let entries = match parse_entries(&body) {
        None => {
            return slice_to_vec(block);
        },
        Some(es) => es,
    };
    let deduped = dedup_entry_list(entries);
    let mut out = slice_to_vec(ls[0].as_slice());
    let mut t: usize = 0;
    let ghost dm = entry_models(deduped@);
    assert(dm.take(0) =~= Seq::<FmEntryModel>::empty());
    assert(out@ =~= lsv[0] + render_entries(dm.take(0)));
    while t < deduped.len()
        invariant
            dm == entry_models(deduped@),
            0 <= t <= deduped@.len(),
            out@ == lsv[0] + render_entries(dm.take(t as int)),
        decreases deduped@.len() - t,
    {
        assert(dm.take(t + 1).drop_last() == dm.take(t as int));
        assert(dm.take(t + 1).last() == entry_model(deduped@[t as int]));
        render_entry_exec(&mut out, &deduped[t]);
        assert(out@ =~= lsv[0] + render_entries(dm.take(t + 1)));
        t = t + 1;
    }
    assert(dm.take(deduped@.len() as int) == dm);
    push_chars(&mut out, ls[k].as_slice());
    out
}

/// Whether `s` holds no `\n`.
pub open spec fn no_newline(s: Seq<char>) -> bool {
    forall|t: int| 0 <= t < s.len() ==> #[trigger] s[t] != '\n'
}

/// Whether `s` does not end with `\n` or `\r`.
pub open spec fn clean_end(s: Seq<char>) -> bool {
    s.len() == 0 || !is_newline_char(s.last())
}

/// A piece of one line's text: no `\n`, and no `\n` or `\r` at its end.
pub open spec fn text_piece(s: Seq<char>) -> bool {
    no_newline(s) && clean_end(s)
}

/// Whether `s` holds no `:`.
pub open spec fn no_colon(s: Seq<char>) -> bool {
    forall|t: int| 0 <= t < s.len() ==> #[trigger] s[t] != ':'
}

/// The shape every parsed entry has: a non-empty key without whitespace or
/// `:`, and a non-empty scalar that starts with a non-space, or a non-empty
/// list, each piece of one line's text.
pub open spec fn entry_shaped(e: FmEntryModel) -> bool {
    &&& e.key.len() > 0
    &&& !has_ws(e.key)
    &&& no_colon(e.key)
    &&& match e.value {
        FmValueModel::Scalar(v) => v.len() > 0 && !is_ws(v[0]) && text_piece(v),
        FmValueModel::List(items) => items.len() > 0 && forall|t: int|
            0 <= t < items.len() ==> text_piece(#[trigger] items[t]),
    }
}

pub open spec fn entries_shaped(es: Seq<FmEntryModel>) -> bool {
    forall|i: int| 0 <= i < es.len() ==> entry_shaped(#[trigger] es[i])
}

proof fn lemma_trim_newlines_end_prefix(s: Seq<char>)
    ensures
        trim_newlines_end(s).len() <= s.len(),
        trim_newlines_end(s) == s.take(trim_newlines_end(s).len() as int),
        clean_end(trim_newlines_end(s)),
        forall|t: int| trim_newlines_end(s).len() <= t < s.len() ==> is_newline_char(#[trigger] s[t]),
    decreases s.len(),
{
    if s.len() > 0 && is_newline_char(s.last()) {
        let d = s.drop_last();
        lemma_trim_newlines_end_prefix(d);
        let r = trim_newlines_end(d);
        assert(d.take(r.len() as int) =~= s.take(r.len() as int));
        assert forall|t: int| r.len() <= t < s.len() implies is_newline_char(#[trigger] s[t]) by {
            if t < d.len() {
                assert(s[t] == d[t]);
            }
        }
    } else {
        assert(s.take(s.len() as int) =~= s);
    }
}

/// The text of a proper line without its terminator is a piece of one line.
proof fn lemma_line_content(l: Seq<char>)
    requires
        is_proper_line(l),
    ensures
        text_piece(trim_newlines_end(l)),
{
    lemma_trim_newlines_end_prefix(l);
    let c = trim_newlines_end(l);
    assert forall|t: int| 0 <= t < c.len() implies #[trigger] c[t] != '\n' by {
        assert(c[t] == l[t]);
        if t == l.len() - 1 {
            assert(c.len() == l.len());
            assert(c.last() == l[t]);
        }
    }
}

/// A suffix of a piece of one line is one too.
proof fn lemma_piece_suffix(c: Seq<char>, k: int)
    requires
        text_piece(c),
        0 <= k <= c.len(),
    ensures
        text_piece(c.skip(k)),
{
    let r = c.skip(k);
    assert forall|t: int| 0 <= t < r.len() implies #[trigger] r[t] != '\n' by {
        assert(r[t] == c[t + k]);
    }
    if r.len() > 0 {
        assert(r.last() == c.last());
    }
}

/// Every entry parsed from proper lines has the parsed shape.
proof fn lemma_parsed_shaped(ls: Seq<Seq<char>>, i: int)
    requires
        forall|t: int| 0 <= t < ls.len() ==> is_proper_line(#[trigger] ls[t]),
    ensures
        parse_entries_from(ls, i) matches Some(es) ==> entries_shaped(es),
    decreases ls.len() - i,
{
    if 0 <= i < ls.len() {
        let content = trim_newlines_end(ls[i]);
        if !bad_entry_start(content) {
            match find_char(content, ':') {
                None => {},
                Some(colon) => {
                    let key = trim_end(content.take(colon));
                    if key.len() > 0 && !has_ws(key) {
                        let w = choose|k: int|
                            0 <= k < content.len() && content[k] == ':' && forall|j: int|
                                0 <= j < k ==> content[j] != ':';
                        assert(w == colon);
                        lemma_trim_end_prefix(content.take(colon));
                        assert forall|t: int| 0 <= t < key.len() implies #[trigger] key[t] != ':' by {
                            assert(key[t] == content.take(colon)[t]);
                        }
                        lemma_line_content(ls[i]);
                        let rest = trim_start(content.skip(colon + 1));
                        if rest.len() == 0 {
                            let j = item_run_end(ls, i + 1);
                            lemma_item_run_end(ls, i + 1);
                            lemma_parsed_shaped(ls, j);
                            if j > i + 1 {
                                let items = items_between(ls, i + 1, j);
                                assert forall|t: int| 0 <= t < items.len() implies text_piece(
                                    #[trigger] items[t],
                                ) by {
                                    let l = ls[i + 1 + t];
                                    lemma_line_content(l);
                                    let c = trim_newlines_end(l);
                                    lemma_trim_start_suffix(c);
                                    lemma_piece_suffix(c, c.len() - trim_start(c).len());
                                    lemma_piece_suffix(trim_start(c), 2);
                                }
                                match parse_entries_from(ls, j) {
                                    None => {},
                                    Some(tail) => {
                                        let e = FmEntryModel {
                                            key,
                                            value: FmValueModel::List(items),
                                        };
                                        let all = seq![e] + tail;
                                        assert forall|q: int| 0 <= q < all.len() implies entry_shaped(
                                            #[trigger] all[q],
                                        ) by {
                                            if q > 0 {
                                                assert(all[q] == tail[q - 1]);
                                            }
                                        }
                                    },
                                }
                            }
                        } else {
                            lemma_parsed_shaped(ls, i + 1);
                            lemma_piece_suffix(content, colon + 1);
                            lemma_trim_start_suffix(content.skip(colon + 1));
                            lemma_piece_suffix(
                                content.skip(colon + 1),
                                content.skip(colon + 1).len() - rest.len(),
                            );
                            lemma_trim_start_first(content.skip(colon + 1));
                            match parse_entries_from(ls, i + 1) {
                                None => {},
                                Some(tail) => {
                                    let e = FmEntryModel { key, value: FmValueModel::Scalar(rest) };
                                    let all = seq![e] + tail;
                                    assert forall|q: int| 0 <= q < all.len() implies entry_shaped(
                                        #[trigger] all[q],
                                    ) by {
                                        if q > 0 {
                                            assert(all[q] == tail[q - 1]);
                                        }
                                    }
                                },
                            }
                        }
                    }
                },
            }
        }
    }
}

/// Whether `d` is its own deduplication: every value already list-deduplicated,
/// and no entry exactly repeating an earlier one.
pub open spec fn dedup_fixed(d: Seq<FmEntryModel>) -> bool {
    &&& forall|b: int| 0 <= b < d.len() ==> dedup_value(#[trigger] d[b].value) == d[b].value
    &&& forall|a: int, b: int|
        #![trigger d[a], d[b]]
        0 <= a < b < d.len() ==> !(d[a].key == d[b].key && canonical(d[a].value) == canonical(
            d[b].value,
        ))
}

proof fn lemma_dedup_entries_fixed(es: Seq<FmEntryModel>)
    ensures
        dedup_fixed(dedup_entries(es)),
    decreases es.len(),
{
    if es.len() > 0 {
        let p = es.drop_last();
        let x = es.last();
        lemma_dedup_entries_fixed(p);
        if !repeats_earlier(p, x) {
            lemma_repeats_earlier(p, x);
            lemma_dedup_value_idem(x.value);
            let d = dedup_entries(p);
            let xd = FmEntryModel { key: x.key, value: dedup_value(x.value) };
            let dd = d.push(xd);
            assert forall|b: int| 0 <= b < dd.len() implies dedup_value(#[trigger] dd[b].value)
                == dd[b].value by {
                if b < d.len() {
                    assert(dd[b] == d[b]);
                }
            }
            assert forall|a: int, b: int|
                #![trigger dd[a], dd[b]]
                0 <= a < b < dd.len() implies !(dd[a].key == dd[b].key && canonical(dd[a].value)
                == canonical(dd[b].value)) by {
                assert(dd[a] == d[a]);
                if b < d.len() {
                    assert(dd[b] == d[b]);
                } else {
                    if dd[a].key == dd[b].key && canonical(dd[a].value) == canonical(dd[b].value) {
                        assert(holds_match(d, x));
                    }
                }
            }
        }
    }
}

proof fn lemma_dedup_of_fixed(d: Seq<FmEntryModel>)
    requires
        dedup_fixed(d),
    ensures
        dedup_entries(d) == d,
    decreases d.len(),
{
    if d.len() > 0 {
        let p = d.drop_last();
        let x = d.last();
        assert forall|b: int| 0 <= b < p.len() implies dedup_value(#[trigger] p[b].value)
            == p[b].value by {
            assert(p[b] == d[b]);
        }
        assert forall|a: int, b: int|
            #![trigger p[a], p[b]]
            0 <= a < b < p.len() implies !(p[a].key == p[b].key && canonical(p[a].value)
            == canonical(p[b].value)) by {
            assert(p[a] == d[a] && p[b] == d[b]);
        }
        lemma_dedup_of_fixed(p);
        if repeats_earlier(p, x) {
            let j = choose|j: int|
                0 <= j < p.len() && p[j].key == x.key && canonical(dedup_value(p[j].value))
                    == canonical(dedup_value(x.value));
            assert(p[j] == d[j]);
            assert(dedup_value(d[d.len() - 1].value) == d[d.len() - 1].value);
            assert(!(d[j].key == d[d.len() - 1].key && canonical(d[j].value) == canonical(
                d[d.len() - 1].value,
            )));
        }
        assert(dedup_value(d[d.len() - 1].value) == d[d.len() - 1].value);
        assert(d =~= p.push(FmEntryModel { key: x.key, value: dedup_value(x.value) }));
    }
}

/// Deduplicating entries is idempotent.
pub proof fn lemma_dedup_entries_idem(es: Seq<FmEntryModel>)
    ensures
        dedup_entries(dedup_entries(es)) == dedup_entries(es),
{
    lemma_dedup_entries_fixed(es);
    lemma_dedup_of_fixed(dedup_entries(es));
}

proof fn lemma_dedup_entries_shaped(es: Seq<FmEntryModel>)
    requires
        entries_shaped(es),
    ensures
        entries_shaped(dedup_entries(es)),
    decreases es.len(),
{
    if es.len() > 0 {
        let p = es.drop_last();
        let x = es.last();
        assert forall|i: int| 0 <= i < p.len() implies entry_shaped(#[trigger] p[i]) by {
            assert(p[i] == es[i]);
        }
        lemma_dedup_entries_shaped(p);
        assert(entry_shaped(es[es.len() - 1]));
        if !repeats_earlier(p, x) {
            let d = dedup_entries(p);
            let xd = FmEntryModel { key: x.key, value: dedup_value(x.value) };
            match x.value {
                FmValueModel::Scalar(_) => {},
                FmValueModel::List(items) => {
                    let di = dedup_items(items);
                    lemma_dedup_items_contains(items, items[0]);
                    assert(items.contains(items[0]));
                    assert forall|t: int| 0 <= t < di.len() implies text_piece(#[trigger] di[t]) by {
                        assert(di.contains(di[t]));
                        lemma_dedup_items_contains(items, di[t]);
                        let k = choose|k: int| 0 <= k < items.len() && items[k] == di[t];
                    }
                },
            }
            let dd = d.push(xd);
            assert forall|i: int| 0 <= i < dd.len() implies entry_shaped(#[trigger] dd[i]) by {
                if i < d.len() {
                    assert(dd[i] == d[i]);
                }
            }
        }
    }
}

/// The lines of an entry's canonical rendering.
pub open spec fn entry_lines(e: FmEntryModel) -> Seq<Seq<char>> {
    match e.value {
        FmValueModel::Scalar(v) => seq![e.key + seq![':', ' '] + v + seq!['\n']],
        FmValueModel::List(items) => seq![e.key + seq![':', '\n']] + Seq::new(
            items.len(),
            |t: int| render_item(items[t]),
        ),
    }
}

/// The lines of the canonical rendering of `es`.
pub open spec fn entries_lines(es: Seq<FmEntryModel>) -> Seq<Seq<char>>
    decreases es.len(),
{
    if es.len() == 0 {
        seq![]
    } else {
        entry_lines(es[0]) + entries_lines(es.drop_first())
    }
}

proof fn lemma_render_items_lines(items: Seq<Seq<char>>)
    ensures
        concat(Seq::new(items.len(), |t: int| render_item(items[t]))) == render_items(items),
    decreases items.len(),
{
    if items.len() > 0 {
        let p = items.drop_last();
        lemma_render_items_lines(p);
        let f = Seq::new(items.len(), |t: int| render_item(items[t]));
        assert(f.drop_last() =~= Seq::new(p.len(), |t: int| render_item(p[t])));
    } else {
        assert(Seq::new(items.len(), |t: int| render_item(items[t])) =~= Seq::<Seq<char>>::empty());
    }
}

proof fn lemma_entry_lines_concat(e: FmEntryModel)
    ensures
        concat(entry_lines(e)) == render_entry(e),
{
    match e.value {
        FmValueModel::Scalar(v) => {
            let l = e.key + seq![':', ' '] + v + seq!['\n'];
            assert(seq![l].drop_last() =~= Seq::<Seq<char>>::empty());
            assert(concat(seq![l]) == concat(Seq::<Seq<char>>::empty()) + l);
            assert(Seq::<char>::empty() + l =~= l);
        },
        FmValueModel::List(items) => {
            let f = Seq::new(items.len(), |t: int| render_item(items[t]));
            lemma_concat_prepend(e.key + seq![':', '\n'], f);
            lemma_render_items_lines(items);
        },
    }
}

proof fn lemma_entries_lines_last(es: Seq<FmEntryModel>)
    requires
        es.len() > 0,
    ensures
        entries_lines(es) == entries_lines(es.drop_last()) + entry_lines(es.last()),
    decreases es.len(),
{
    if es.len() == 1 {
        assert(es.drop_first().len() == 0);
        assert(es.drop_last().len() == 0);
        assert(entries_lines(es.drop_first()) =~= Seq::<Seq<char>>::empty());
        assert(entries_lines(es.drop_last()) =~= Seq::<Seq<char>>::empty());
        assert(entries_lines(es) =~= entry_lines(es[0]));
        assert(entries_lines(es.drop_last()) + entry_lines(es.last()) =~= entry_lines(es.last()));
    } else {
        let t = es.drop_first();
        lemma_entries_lines_last(t);
        assert(es.drop_last().drop_first() =~= t.drop_last());
        assert(es.drop_last()[0] == es[0]);
        assert(t.last() == es.last());
        assert(entries_lines(es) =~= entries_lines(es.drop_last()) + entry_lines(es.last()));
    }
}

/// The rendered lines concatenate to the canonical rendering.
proof fn lemma_entries_lines_concat(es: Seq<FmEntryModel>)
    ensures
        concat(entries_lines(es)) == render_entries(es),
    decreases es.len(),
{
    if es.len() > 0 {
        lemma_entries_lines_last(es);
        lemma_entries_lines_concat(es.drop_last());
        lemma_concat_append(entries_lines(es.drop_last()), entry_lines(es.last()));
        lemma_entry_lines_concat(es.last());
    } else {
        assert(concat(Seq::<Seq<char>>::empty()) =~= Seq::<char>::empty());
    }
}

/// A line of a canonical rendering: one proper line, ending with `\n`, that
/// does not close the block.
pub open spec fn rendered_line_ok(l: Seq<char>) -> bool {
    is_proper_line(l) && l.last() == '\n' && !is_closing_line(l)
}

proof fn lemma_trim_newlines_push(x: Seq<char>)
    requires
        clean_end(x),
    ensures
        trim_newlines_end(x.push('\n')) == x,
{
    assert(x.push('\n').drop_last() =~= x);
    assert(trim_newlines_end(x) == x);
}

proof fn lemma_not_closing(x: Seq<char>, k: int)
    requires
        0 <= k < x.len(),
        x[k] == ':' || x[k] == ' ',
    ensures
        x != dashes(),
        x != dots(),
{
    if x == dashes() {
        assert(dashes()[k] == '-');
    }
    if x == dots() {
        assert(dots()[k] == '.');
    }
}

proof fn lemma_entry_lines_ok(e: FmEntryModel)
    requires
        entry_shaped(e),
    ensures
        forall|t: int| 0 <= t < entry_lines(e).len() ==> rendered_line_ok(#[trigger] entry_lines(e)[t]),
{
    let k = e.key;
    assert(forall|t: int| 0 <= t < k.len() ==> k[t] != '\n') by {
        assert forall|t: int| 0 <= t < k.len() implies k[t] != '\n' by {
            if k[t] == '\n' {
                assert(is_ws(k[t]));
            }
        }
    }
    match e.value {
        FmValueModel::Scalar(v) => {
            let x = k + seq![':', ' '] + v;
            let l = x.push('\n');
            assert(l =~= k + seq![':', ' '] + v + seq!['\n']);
            assert forall|t: int| 0 <= t < l.len() - 1 implies #[trigger] l[t] != '\n' by {
                if t >= k.len() + 2 {
                    assert(l[t] == v[t - k.len() - 2]);
                }
            }
            assert(x.last() == v.last());
            lemma_trim_newlines_push(x);
            assert(x[k.len() as int] == ':');
            lemma_not_closing(x, k.len() as int);
            assert(entry_lines(e) =~= seq![l]);
        },
        FmValueModel::List(items) => {
            let x = k + seq![':'];
            let h = x.push('\n');
            assert(h =~= k + seq![':', '\n']);
            assert forall|t: int| 0 <= t < h.len() - 1 implies #[trigger] h[t] != '\n' by {}
            lemma_trim_newlines_push(x);
            assert(x[k.len() as int] == ':');
            lemma_not_closing(x, k.len() as int);
            let ls = entry_lines(e);
            assert forall|t: int| 0 <= t < ls.len() implies rendered_line_ok(#[trigger] ls[t]) by {
                if t > 0 {
                    let it = items[t - 1];
                    assert(text_piece(it));
                    let y = seq![' ', ' ', '-', ' '] + it;
                    let l = y.push('\n');
                    assert(ls[t] == render_item(it));
                    assert(l =~= render_item(it));
                    assert forall|q: int| 0 <= q < l.len() - 1 implies #[trigger] l[q] != '\n' by {
                        if q >= 4 {
                            assert(l[q] == it[q - 4]);
                        }
                    }
                    if it.len() > 0 {
                        assert(y.last() == it.last());
                    }
                    lemma_trim_newlines_push(y);
                    assert(y[0] == ' ');
                    lemma_not_closing(y, 0);
                }
            }
        },
    }
}

proof fn lemma_entries_lines_ok(es: Seq<FmEntryModel>)
    requires
        entries_shaped(es),
    ensures
        forall|t: int| 0 <= t < entries_lines(es).len() ==> rendered_line_ok(#[trigger] entries_lines(es)[t]),
    decreases es.len(),
{
    if es.len() > 0 {
        let r = es.drop_first();
        assert forall|i: int| 0 <= i < r.len() implies entry_shaped(#[trigger] r[i]) by {
            assert(r[i] == es[i + 1]);
        }
        lemma_entries_lines_ok(r);
        lemma_entry_lines_ok(es[0]);
        let a = entry_lines(es[0]);
        let b = entries_lines(r);
        assert forall|t: int| 0 <= t < (a + b).len() implies rendered_line_ok(#[trigger] (a + b)[t]) by {
            if t >= a.len() {
                assert((a + b)[t] == b[t - a.len()]);
            }
        }
    }
}

proof fn lemma_item_run_shift(a: Seq<Seq<char>>, b: Seq<Seq<char>>, j: int)
    requires
        0 <= j,
    ensures
        item_run_end(a + b, a.len() + j) == a.len() + item_run_end(b, j),
    decreases b.len() - j,
{
    if j < b.len() {
        assert((a + b)[a.len() + j] == b[j]);
        if is_item_line(b[j]) {
            lemma_item_run_shift(a, b, j + 1);
        }
    }
}

/// Parsing entries only looks forward: lines before the start do not matter.
proof fn lemma_parse_shift(a: Seq<Seq<char>>, b: Seq<Seq<char>>, i: int)
    requires
        0 <= i,
    ensures
        parse_entries_from(a + b, a.len() + i) == parse_entries_from(b, i),
    decreases b.len() - i,
{
    let ab = a + b;
    if i < b.len() {
        assert(ab[a.len() + i] == b[i]);
        let content = trim_newlines_end(b[i]);
        if !bad_entry_start(content) {
            match find_char(content, ':') {
                None => {},
                Some(colon) => {
                    let key = trim_end(content.take(colon));
                    if key.len() > 0 && !has_ws(key) {
                        let rest = trim_start(content.skip(colon + 1));
                        if rest.len() == 0 {
                            lemma_item_run_shift(a, b, i + 1);
                            let j = item_run_end(b, i + 1);
                            lemma_item_run_end(b, i + 1);
                            if j > i + 1 {
                                lemma_parse_shift(a, b, j);
                                assert(items_between(ab, a.len() + i + 1, a.len() + j)
                                    =~= items_between(b, i + 1, j));
                            }
                        } else {
                            lemma_parse_shift(a, b, i + 1);
                        }
                    }
                },
            }
        }
    }
}

proof fn lemma_trim_end_keeps_first(x: Seq<char>)
    requires
        x.len() > 0,
        !is_ws(x[0]),
    ensures
        trim_end(x).len() > 0,
    decreases x.len(),
{
    if x.len() > 1 && is_ws(x.last()) {
        assert(x.drop_last()[0] == x[0]);
        lemma_trim_end_keeps_first(x.drop_last());
    }
}

proof fn lemma_render_item_parses(it: Seq<char>)
    requires
        text_piece(it),
    ensures
        is_item_line(render_item(it)),
        item_text(render_item(it)) == it,
{
    let y = seq![' ', ' ', '-', ' '] + it;
    assert(render_item(it) =~= y.push('\n'));
    if it.len() > 0 {
        assert(y.last() == it.last());
    }
    lemma_trim_newlines_push(y);
    assert(y.drop_first().drop_first() =~= seq!['-', ' '] + it);
    assert(trim_start(y) == trim_start(y.drop_first()));
    assert(trim_start(y.drop_first()) == trim_start(y.drop_first().drop_first()));
    assert(trim_start(seq!['-', ' '] + it) == seq!['-', ' '] + it);
    assert(y.subrange(0, 2) =~= two_spaces());
    assert((seq!['-', ' '] + it).subrange(0, 2) =~= dash_space());
    assert((seq!['-', ' '] + it).skip(2) =~= it);
}

proof fn lemma_item_run_of_rendered(ls: Seq<Seq<char>>, n: int, t: int)
    requires
        1 <= t <= n <= ls.len(),
        forall|q: int| 1 <= q < n ==> is_item_line(#[trigger] ls[q]),
        n < ls.len() ==> !is_item_line(ls[n]),
    ensures
        item_run_end(ls, t) == n,
    decreases n - t,
{
    if t < n {
        lemma_item_run_of_rendered(ls, n, t + 1);
    }
}

/// The canonical rendering of shaped entries parses back into them.
proof fn lemma_parse_rendered(d: Seq<FmEntryModel>)
    requires
        entries_shaped(d),
    ensures
        parse_entries_from(entries_lines(d), 0) == Some(d),
    decreases d.len(),
{
    if d.len() == 0 {
        assert(entries_lines(d) =~= Seq::<Seq<char>>::empty());
    } else {
        let e = d[0];
        let r = d.drop_first();
        assert forall|q: int| 0 <= q < r.len() implies entry_shaped(#[trigger] r[q]) by {
            assert(r[q] == d[q + 1]);
        }
        lemma_parse_rendered(r);
        let el = entry_lines(e);
        let tl = entries_lines(r);
        let ls = el + tl;
        assert(entries_lines(d) == ls);
        lemma_parse_shift(el, tl, 0);
        assert(entry_shaped(e));
        let k = e.key;
        assert(!is_ws(k[0])) by {
            if is_ws(k[0]) {
                assert(has_ws(k));
            }
        }
        assert(!is_ws(k.last())) by {
            if is_ws(k.last()) {
                assert(has_ws(k));
            }
        }
        assert(trim_end(k) == k);
        let x = match e.value {
            FmValueModel::Scalar(v) => k + seq![':', ' '] + v,
            FmValueModel::List(_) => k + seq![':'],
        };
        assert(ls[0] == el[0]);
        assert(el[0] =~= x.push('\n'));
        assert(x.last() != '\n' && x.last() != '\r') by {
            match e.value {
                FmValueModel::Scalar(v) => {
                    assert(x.last() == v.last());
                },
                FmValueModel::List(_) => {},
            }
        }
        lemma_trim_newlines_push(x);
        let content = trim_newlines_end(ls[0]);
        assert(content == x);
        assert(x[0] == k[0]);
        assert(trim_start(x) == x);
        lemma_trim_end_keeps_first(x);
        assert(!bad_entry_start(content));
        assert forall|j: int| 0 <= j < k.len() implies x[j] != ':' by {
            assert(x[j] == k[j]);
        }
        lemma_find_char(x, ':', k.len() as int);
        assert(x.take(k.len() as int) =~= k);
        match e.value {
            FmValueModel::Scalar(v) => {
                assert(x.skip(k.len() as int + 1) =~= seq![' '] + v);
                assert((seq![' '] + v).drop_first() =~= v);
                assert(trim_start(seq![' '] + v) == trim_start(v));
                assert(trim_start(v) == v);
                assert(el.len() == 1);
                assert(parse_entries_from(ls, 0) == Some(seq![FmEntryModel { key: k, value: FmValueModel::Scalar(v) }] + r));
                assert(seq![e] + r =~= d);
            },
            FmValueModel::List(items) => {
                assert(x.skip(k.len() as int + 1) =~= Seq::<char>::empty());
                let n = el.len() as int;
                assert forall|q: int| 1 <= q < n implies is_item_line(#[trigger] ls[q]) by {
                    assert(ls[q] == el[q]);
                    assert(el[q] == render_item(items[q - 1]));
                    lemma_render_item_parses(items[q - 1]);
                }
                if n < ls.len() {
                    assert(ls[n] == tl[0]);
                    assert(r.len() > 0) by {
                        if r.len() == 0 {
                            assert(entries_lines(r) =~= Seq::<Seq<char>>::empty());
                        }
                    }
                    let k2 = r[0].key;
                    assert(entry_shaped(r[0]));
                    assert(tl == entry_lines(r[0]) + entries_lines(r.drop_first()));
                    assert(tl[0] == entry_lines(r[0])[0]);
                    let c2 = trim_newlines_end(tl[0]);
                    let x2 = match r[0].value {
                        FmValueModel::Scalar(v2) => k2 + seq![':', ' '] + v2,
                        FmValueModel::List(_) => k2 + seq![':'],
                    };
                    assert(entry_lines(r[0])[0] =~= x2.push('\n'));
                    assert(x2.last() != '\n' && x2.last() != '\r') by {
                        match r[0].value {
                            FmValueModel::Scalar(v2) => {
                                assert(x2.last() == v2.last());
                            },
                            FmValueModel::List(_) => {},
                        }
                    }
                    lemma_trim_newlines_push(x2);
                    assert(c2 == x2);
                    assert(!is_ws(k2[0])) by {
                        if is_ws(k2[0]) {
                            assert(has_ws(k2));
                        }
                    }
                    assert(x2[0] == k2[0]);
                    assert(!starts_with(c2, two_spaces())) by {
                        if starts_with(c2, two_spaces()) {
                            assert(c2.subrange(0, 2)[0] == c2[0]);
                        }
                    }
                }
                lemma_item_run_of_rendered(ls, n, 1);
                let its = items_between(ls, 1, n);
                assert forall|q: int| 0 <= q < items.len() implies its[q] == items[q] by {
                    assert(ls[1 + q] == render_item(items[q]));
                    lemma_render_item_parses(items[q]);
                }
                assert(its =~= items);
                assert(parse_entries_from(ls, 0) == Some(seq![FmEntryModel { key: k, value: FmValueModel::List(items) }] + r));
                assert(seq![e] + r =~= d);
            },
        }
    }
}

proof fn lemma_first_closing_at(ls: Seq<Seq<char>>, i: int, c: int)
    requires
        0 <= i <= c < ls.len(),
        forall|t: int| i <= t < c ==> !is_closing_line(#[trigger] ls[t]),
        is_closing_line(ls[c]),
    ensures
        first_closing_from(ls, i) == Some(c),
    decreases c - i,
{
    if i < c {
        lemma_first_closing_at(ls, i + 1, c);
    }
}

/// Frontmatter normalization is idempotent: a block it has normalized is left
/// as it is by a second normalization.
pub proof fn lemma_normalize_idempotent(block: Seq<char>)
    ensures
        normalize_spec(normalize_spec(block)) == normalize_spec(block),
{
    let ls = lines(block);
    if ls.len() > 0 && trim_end(ls[0]) == dashes() {
        lemma_first_closing_from(ls, 1);
        match first_closing_from(ls, 1) {
            None => {},
            Some(k) => {
                let body = ls.subrange(1, k);
                match parse_entries_from(body, 0) {
                    None => {},
                    Some(es) => {
                        lemma_lines_proper(block);
                        assert forall|t: int| 0 <= t < body.len() implies is_proper_line(
                            #[trigger] body[t],
                        ) by {
                            assert(body[t] == ls[t + 1]);
                        }
                        lemma_parsed_shaped(body, 0);
                        lemma_dedup_entries_shaped(es);
                        let d = dedup_entries(es);
                        lemma_entries_lines_ok(d);
                        lemma_entries_lines_concat(d);
                        let rl = entries_lines(d);
                        let first = ls[0];
                        let last = ls[k];
                        let big = seq![first] + rl + seq![last];
                        let out = first + render_entries(d) + last;
                        assert(out == normalize_spec(block));
                        lemma_concat_append(rl, seq![last]);
                        assert(seq![last].drop_last() =~= Seq::<Seq<char>>::empty());
                        assert(concat(seq![last]) == concat(Seq::<Seq<char>>::empty()) + last);
                        assert(concat(Seq::<Seq<char>>::empty()) + last =~= last);
                        lemma_concat_prepend(first, rl + seq![last]);
                        assert(big =~= seq![first] + (rl + seq![last]));
                        assert(concat(big) =~= out);
                        assert forall|q: int| 0 <= q < big.len() implies is_proper_line(
                            #[trigger] big[q],
                        ) && (q < big.len() - 1 ==> big[q].last() == '\n') by {
                            if q == 0 {
                                assert(big[q] == ls[0]);
                            } else if q <= rl.len() {
                                assert(big[q] == rl[q - 1]);
                                assert(rendered_line_ok(rl[q - 1]));
                            } else {
                                assert(big[q] == ls[k]);
                            }
                        }
                        lemma_lines_of_proper(big);
                        assert(lines(out) == big);
                        let c: int = rl.len() as int + 1;
                        assert forall|t: int| 1 <= t < c implies !is_closing_line(#[trigger] big[t]) by {
                            assert(big[t] == rl[t - 1]);
                            assert(rendered_line_ok(rl[t - 1]));
                        }
                        assert(big[c] == last);
                        lemma_first_closing_at(big, 1, c);
                        assert(big.subrange(1, c) =~= rl);
                        lemma_parse_rendered(d);
                        lemma_dedup_entries_idem(es);
                        assert(big[0] == first);
                    },
                }
            },
        }
    }
}

/// Normalization drops nothing but exact repeats: every entry of the block
/// is still represented, by an entry with its key whose value holds the
/// same items (each once) or the same scalar; and every item of a list is
/// still in that list.
pub proof fn lemma_normalize_keeps_entries(es: Seq<FmEntryModel>)
    ensures
        forall|i: int| 0 <= i < es.len() ==> holds_match(dedup_entries(es), #[trigger] es[i]),
        forall|items: Seq<Seq<char>>, x: Seq<char>| items.contains(x) ==> #[trigger] dedup_items(items).contains(x),
    decreases es.len(),
{
    assert forall|items: Seq<Seq<char>>, x: Seq<char>| items.contains(x) implies #[trigger] dedup_items(items).contains(x) by {
        lemma_dedup_items_contains(items, x);
    }
    if es.len() > 0 {
        let p = es.drop_last();
        let x = es.last();
        lemma_normalize_keeps_entries(p);
        let d = dedup_entries(p);
        lemma_repeats_earlier(p, x);
        lemma_dedup_value_idem(x.value);
        assert forall|i: int| 0 <= i < es.len() implies holds_match(dedup_entries(es), #[trigger] es[i]) by {
            if i < p.len() {
                assert(es[i] == p[i]);
                assert(holds_match(d, p[i]));
                let q = choose|q: int|
                    0 <= q < d.len() && d[q].key == p[i].key && canonical(d[q].value) == canonical(
                        dedup_value(p[i].value),
                    );
                if !repeats_earlier(p, x) {
                    let xd = FmEntryModel { key: x.key, value: dedup_value(x.value) };
                    assert(d.push(xd)[q] == d[q]);
                }
            } else {
                assert(es[i] == x);
                if !repeats_earlier(p, x) {
                    let xd = FmEntryModel { key: x.key, value: dedup_value(x.value) };
                    assert(d.push(xd)[d.len() as int] == xd);
                }
            }
        }
    }
}

/// Whether every character of `s` is whitespace.
pub open spec fn all_ws(s: Seq<char>) -> bool {
    forall|t: int| 0 <= t < s.len() ==> is_ws(#[trigger] s[t])
}

/// Whether every character of `s` is `\n` or `\r`.
pub open spec fn all_newlines(s: Seq<char>) -> bool {
    forall|t: int| 0 <= t < s.len() ==> is_newline_char(#[trigger] s[t])
}

/// Extraction is lossless: the input is leading whitespace, then the
/// frontmatter block verbatim, then line terminators, then the remainder;
/// without a block, the remainder is the whole input.
pub proof fn lemma_extract_lossless(input: Seq<char>)
    ensures
        extract_spec(input).0 matches Some(fm) ==> exists|lead: Seq<char>, gap: Seq<char>|
            #![trigger all_ws(lead), all_newlines(gap)]
            input == lead + fm + gap + extract_spec(input).1 && all_ws(lead) && all_newlines(gap),
        extract_spec(input).0 is None ==> extract_spec(input).1 == input,
{
    let trimmed = trim_start(input);
    let lw = input.len() - trimmed.len();
    lemma_trim_start_suffix(input);
    lemma_trim_start_prefix_ws(input);
    if starts_with(trimmed, dashes()) {
        let ls = lines(trimmed);
        if ls.len() > 0 && trim_end(ls[0]) == dashes() {
            lemma_first_closing_from(ls, 1);
            match first_closing_from(ls, 1) {
                None => {},
                Some(k) => {
                    crate::text::lemma_concat_lines(trimmed);
                    lemma_concat_split(ls, k + 1);
                    let end = lw + concat(ls.take(k + 1)).len();
                    let fm = input.subrange(lw, end);
                    let tail = input.skip(end);
                    lemma_trim_newlines_start_prefix(tail);
                    let rest = trim_newlines_start(tail);
                    let g = tail.len() - rest.len();
                    let lead = input.take(lw);
                    let gap = tail.take(g);
                    assert(input =~= lead + fm + gap + rest);
                    assert(all_ws(lead)) by {
                        assert forall|t: int| 0 <= t < lead.len() implies is_ws(#[trigger] lead[t]) by {
                            assert(lead[t] == input[t]);
                        }
                    }
                    assert(all_newlines(gap)) by {
                        assert forall|t: int| 0 <= t < gap.len() implies is_newline_char(#[trigger] gap[t]) by {
                            assert(gap[t] == tail[t]);
                        }
                    }
                    assert(extract_spec(input).0 == Some(fm));
                    assert(extract_spec(input).1 == rest);
                },
            }
        }
    }
}

proof fn lemma_trim_newlines_start_prefix(s: Seq<char>)
    ensures
        trim_newlines_start(s).len() <= s.len(),
        trim_newlines_start(s) == s.skip(s.len() - trim_newlines_start(s).len()),
        forall|t: int|
            0 <= t < s.len() - trim_newlines_start(s).len() ==> is_newline_char(#[trigger] s[t]),
    decreases s.len(),
{
    if s.len() > 0 && is_newline_char(s[0]) {
        let d = s.drop_first();
        lemma_trim_newlines_start_prefix(d);
        assert(d.skip(d.len() - trim_newlines_start(d).len()) =~= s.skip(s.len() - trim_newlines_start(d).len()));
        assert forall|t: int|
            0 <= t < s.len() - trim_newlines_start(s).len() implies is_newline_char(#[trigger] s[t]) by {
            if t > 0 {
                assert(s[t] == d[t - 1]);
            }
        }
    } else {
        assert(s.skip(0) =~= s);
    }
}

} // verus!
