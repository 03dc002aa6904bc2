//! Section anchor assignment.
//!
//! An event-level pass that gives each heading a GitHub-compatible `id` via
//! CommonMark's heading-attributes extension (`# text {#id}`), which the
//! parser reads back into the heading's `id` and the serializer writes out.
//! A heading that already carries an `id` is left alone, which is what makes a
//! second pass a no-op.
//!
//! The slug mirrors GitHub's: lowercase, drop everything that is not a Unicode
//! letter or digit, `_`, `-` or space, then turn every space into a hyphen.
//! Repeated slugs within one document get GitHub's suffix (`-1`, `-2`, ...).

use pulldown_cmark::{Event, Tag, TagEnd};
use vstd::prelude::*;
use vstd::slice::slice_to_vec;

use crate::refine::roundtrip::{
    all_wf, event_kind, event_with_id, heading_end_of, kind_model, kinds, kinds_of, lemma_kinds_of_raws,
    raws, set_heading_id, EventKind, KindModel, MdEvent,
};
use crate::refine::link::link_dests;
use crate::text::{chars_eq, chars_of, decimal, push_chars, push_decimal, string_of};

verus! {

/// What `str::to_lowercase` returns for `s`: the Unicode lowercase mapping,
/// including its context-dependent final-sigma rule.
pub uninterp spec fn lowercase(s: Seq<char>) -> Seq<char>;

/// Whether `char::is_alphanumeric` holds of `c`: Unicode `Alphabetic` or `Numeric`.
pub uninterp spec fn is_alphanumeric(c: char) -> bool;

/// `str::to_lowercase`. Trusted to equal [`lowercase`] of its argument.
#[verifier::external_body]
fn to_lowercase(s: &str) -> (r: String)
    ensures
        r@ == lowercase(s@),
{
    s.to_lowercase()
}

/// `char::is_alphanumeric`. Trusted to equal [`is_alphanumeric`] of its argument.
#[verifier::external_body]
fn char_is_alphanumeric(c: char) -> (r: bool)
    ensures
        r == is_alphanumeric(c),
{
    c.is_alphanumeric()
}

/// A character a slug keeps.
pub open spec fn slug_keeps(c: char) -> bool {
    is_alphanumeric(c) || c == '_' || c == '-' || c == ' '
}

/// The characters of `s` a slug keeps, in order, spaces turned into hyphens.
pub open spec fn slug_chars(s: Seq<char>) -> Seq<char>
    decreases s.len(),
{
    if s.len() == 0 {
        seq![]
    } else if slug_keeps(s.last()) {
        slug_chars(s.drop_last()).push(if s.last() == ' ' { '-' } else { s.last() })
    } else {
        slug_chars(s.drop_last())
    }
}

/// GitHub's heading slug of `text`.
pub open spec fn github_slug_spec(text: Seq<char>) -> Seq<char> {
    slug_chars(lowercase(text))
}

/// A character a finished slug may hold: a letter or digit, `_` or `-`.
pub open spec fn slug_char_ok(c: char) -> bool {
    is_alphanumeric(c) || c == '_' || c == '-'
}

proof fn lemma_slug_chars_ok(s: Seq<char>)
    ensures
        forall|t: int| 0 <= t < slug_chars(s).len() ==> slug_char_ok(#[trigger] slug_chars(s)[t]),
    decreases s.len(),
{
    if s.len() > 0 {
        let p = s.drop_last();
        lemma_slug_chars_ok(p);
        let sp = slug_chars(p);
        if slug_keeps(s.last()) {
            let c = if s.last() == ' ' {
                '-'
            } else {
                s.last()
            };
            assert(slug_chars(s) == sp.push(c));
            assert forall|t: int| 0 <= t < slug_chars(s).len() implies slug_char_ok(
                #[trigger] slug_chars(s)[t],
            ) by {
                if t < sp.len() {
                    assert(slug_chars(s)[t] == sp[t]);
                }
            }
        }
    } else {
        assert(slug_chars(s) =~= Seq::<char>::empty());
    }
}

/// A slug holds only letters, digits, `_` and `-`: punctuation is dropped and
/// spaces become hyphens, whatever the heading's text.
pub proof fn lemma_slug_is_bare(text: Seq<char>)
    ensures
        forall|t: int| 0 <= t < github_slug_spec(text).len() ==> slug_char_ok(
            #[trigger] github_slug_spec(text)[t],
        ),
{
    lemma_slug_chars_ok(lowercase(text));
}

/// `section`, the slug of a heading with no letter or digit at all.
pub open spec fn section() -> Seq<char> {
    seq!['s', 'e', 'c', 't', 'i', 'o', 'n']
}

/// Whether `text` holds a letter or a digit.
pub open spec fn has_letter_or_digit(text: Seq<char>) -> bool {
    exists|k: int| 0 <= k < text.len() && is_alphanumeric(#[trigger] text[k])
}

/// The slug before disambiguation: GitHub's, or `section` for a heading with
/// no letter or digit at all (such as `# ---`), rather than an empty or
/// punctuation-only anchor.
pub open spec fn base_slug(text: Seq<char>) -> Seq<char> {
    if !has_letter_or_digit(text) {
        section()
    } else {
        github_slug_spec(text)
    }
}

/// Whether some character of `s` is a letter or a digit.
fn any_letter_or_digit(s: &[char]) -> (r: bool)
    ensures
        r == has_letter_or_digit(s@),
{
    let mut i: usize = 0;
    while i < s.len()
        invariant
            0 <= i <= s@.len(),
            forall|j: int| 0 <= j < i ==> !is_alphanumeric(s@[j]),
        decreases s@.len() - i,
    {
        if char_is_alphanumeric(s[i]) {
            return true;
        }
        i = i + 1;
    }
    false
}

/// The slug for a heading with `text`, and the updated table of how often
/// each base slug was seen: a base seen for the first time is used as it is;
/// its `n`th repeat gets the suffix `-n`.
pub open spec fn unique_slug_spec(text: Seq<char>, seen: Map<Seq<char>, nat>) -> (
    Seq<char>,
    Map<Seq<char>, nat>,
) {
    let base = base_slug(text);
    if !seen.contains_key(base) {
        (base, seen.insert(base, 0))
    } else {
        let c = seen[base] + 1;
        (base + seq!['-'] + decimal(c), seen.insert(base, c))
    }
}

/// GitHub's heading slug of `text`.
pub fn github_slug(text: &str) -> (r: String)
    ensures
        r@ == github_slug_spec(text@),
{
    let lowered = to_lowercase(text);
    let l = chars_of(lowered.as_str());
    let mut out: Vec<char> = Vec::new();
    let mut i: usize = 0;
    assert(l@.take(0) =~= Seq::<char>::empty());
    while i < l.len()
        invariant
            l@ == lowercase(text@),
            0 <= i <= l@.len(),
            out@ == slug_chars(l@.take(i as int)),
        decreases l@.len() - i,
    {
        let c = l[i];
        assert(l@.take(i + 1).drop_last() == l@.take(i as int));
        assert(l@.take(i + 1).last() == c);
        if char_is_alphanumeric(c) || c == '_' || c == '-' || c == ' ' {
            out.push(if c == ' ' { '-' } else { c });
        }
        i = i + 1;
    }
    assert(l@.take(l@.len() as int) == l@);
    string_of(out.as_slice())
}

/// How often each base slug has been seen in the document so far.
pub struct SlugTable {
    keys: Vec<Vec<char>>,
    counts: Vec<u64>,
}

impl SlugTable {
    /// The table's contents: base slug to repeat count.
    pub closed spec fn view(&self) -> Map<Seq<char>, nat> {
        Map::new(
            |k: Seq<char>| exists|i: int| 0 <= i < self.keys@.len() && self.keys@[i]@ == k,
            |k: Seq<char>|
                self.counts@[choose|i: int| 0 <= i < self.keys@.len() && self.keys@[i]@ == k] as nat,
        )
    }

    /// Keys are distinct, and each has a count.
    pub closed spec fn wf(&self) -> bool {
        &&& self.keys@.len() == self.counts@.len()
        &&& forall|i: int, j: int|
            0 <= i < j < self.keys@.len() ==> self.keys@[i]@ != self.keys@[j]@
    }

    /// An empty table.
    pub fn new() -> (r: SlugTable)
        ensures
            r.wf(),
            r.view() == Map::<Seq<char>, nat>::empty(),
    {
        let r = SlugTable { keys: Vec::new(), counts: Vec::new() };
        assert(r.view() =~= Map::<Seq<char>, nat>::empty());
        r
    }

    fn lookup(&self, key: &[char]) -> (r: Option<usize>)
        requires
            self.wf(),
        ensures
            match r {
                Some(i) => i < self.keys@.len() && self.keys@[i as int]@ == key@
                    && self.view().contains_key(key@) && self.view()[key@] == self.counts@[i as int]
                    as nat,
                None => !self.view().contains_key(key@),
            },
    {
        let mut i: usize = 0;
        while i < self.keys.len()
            invariant
                self.wf(),
                0 <= i <= self.keys@.len(),
                forall|j: int| 0 <= j < i ==> self.keys@[j]@ != key@,
            decreases self.keys@.len() - i,
        {
            if chars_eq(self.keys[i].as_slice(), key) {
                proof {
                    let w = choose|w: int| 0 <= w < self.keys@.len() && self.keys@[w]@ == key@;
                    if w != i {
                        if w < i {
                            assert(self.keys@[w]@ != self.keys@[i as int]@);
                        } else {
                            assert(self.keys@[i as int]@ != self.keys@[w]@);
                        }
                    }
                }
                return Some(i);
            }
            i = i + 1;
        }
        None
    }

    /// Returns the slug for a heading whose base slug is `base`, recording it.
    fn record(&mut self, base: Vec<char>) -> (r: Vec<char>)
        requires
            old(self).wf(),
            forall|k: Seq<char>| old(self).view().contains_key(k) ==> old(self).view()[k] < u64::MAX,
        ensures
            final(self).wf(),
            final(self).view() == (if old(self).view().contains_key(base@) {
                old(self).view().insert(base@, old(self).view()[base@] + 1)
            } else {
                old(self).view().insert(base@, 0)
            }),
            r@ == (if old(self).view().contains_key(base@) {
                base@ + seq!['-'] + decimal(old(self).view()[base@] + 1)
            } else {
                base@
            }),
    {
        match self.lookup(base.as_slice()) {
            None => {
                let ghost old_self = *self;
                let r = slice_to_vec(base.as_slice());
                self.keys.push(base);
                self.counts.push(0);
                assert(self.view() =~= old_self.view().insert(r@, 0)) by {
                    assert forall|k: Seq<char>| self.view().contains_key(k) implies self.view()[k]
                        == old_self.view().insert(r@, 0)[k] by {
                        let i = choose|i: int| 0 <= i < self.keys@.len() && self.keys@[i]@ == k;
                        if k == r@ {
                            assert(i == self.keys@.len() - 1);
                        } else {
                            assert(old_self.keys@[i]@ == k);
                            let j = choose|j: int|
                                0 <= j < old_self.keys@.len() && old_self.keys@[j]@ == k;
                            assert(i == j);
                        }
                    }
                    assert forall|k: Seq<char>| old_self.view().insert(r@, 0).contains_key(k)
                        implies self.view().contains_key(k) by {
                        if k == r@ {
                            assert(self.keys@[self.keys@.len() - 1]@ == k);
                        } else {
                            let j = choose|j: int|
                                0 <= j < old_self.keys@.len() && old_self.keys@[j]@ == k;
                            assert(self.keys@[j]@ == k);
                        }
                    }
                }
                r
            },
            Some(i) => {
                let ghost old_self = *self;
                let c = self.counts[i] + 1;
                self.counts.set(i, c);
                let mut r = slice_to_vec(base.as_slice());
                r.push('-');
                push_decimal(&mut r, c);
                assert(self.view() =~= old_self.view().insert(base@, c as nat)) by {
                    assert forall|k: Seq<char>| self.view().contains_key(k) implies self.view()[k]
                        == old_self.view().insert(base@, c as nat)[k] by {
                        let w = choose|w: int| 0 <= w < self.keys@.len() && self.keys@[w]@ == k;
                        if k == base@ {
                            if w != i {
                                if w < i {
                                    assert(self.keys@[w]@ != self.keys@[i as int]@);
                                } else {
                                    assert(self.keys@[i as int]@ != self.keys@[w]@);
                                }
                            }
                        } else {
                            let j = choose|j: int|
                                0 <= j < old_self.keys@.len() && old_self.keys@[j]@ == k;
                            assert(old_self.keys@[w]@ == k);
                            if w != j {
                                if w < j {
                                    assert(old_self.keys@[w]@ != old_self.keys@[j]@);
                                } else {
                                    assert(old_self.keys@[j]@ != old_self.keys@[w]@);
                                }
                            }
                        }
                    }
                }
                assert(r@ =~= base@ + seq!['-'] + decimal(c as nat));
                r
            },
        }
    }
}

/// Returns the slug for a heading with `heading_text`, recording it in `seen`:
/// GitHub's slug (or `section` for a heading with no letter or digit), with
/// the suffix `-n` on its `n`th repeat within the document.
pub fn unique_slug(heading_text: &str, seen: &mut SlugTable) -> (r: String)
    requires
        old(seen).wf(),
        forall|k: Seq<char>| old(seen).view().contains_key(k) ==> old(seen).view()[k] < u64::MAX,
    ensures
        final(seen).wf(),
        (r@, final(seen).view()) == unique_slug_spec(heading_text@, old(seen).view()),
{
    let text = chars_of(heading_text);
    let mut base: Vec<char>;
    if any_letter_or_digit(text.as_slice()) {
        let slug = github_slug(heading_text);
        base = chars_of(slug.as_str());
    } else {
        base = vec!['s', 'e', 'c', 't', 'i', 'o', 'n'];
        assert(base@ =~= section());
    }
    let r = seen.record(base);
    string_of(r.as_slice())
}

/// The `pulldown_cmark` event that ends the heading `start` starts:
/// `Event::End(TagEnd::Heading(level))` with the start's level. Any other
/// event is returned as a copy. Read back, the end of a heading start is a
/// heading end.
#[verifier::external_body]
fn heading_end_raw(start: &Event<'static>) -> (r: Event<'static>)
    ensures
        r == heading_end_of(*start),
        event_kind(*start) is HeadingStart ==> event_kind(r) is HeadingEnd,
{
    match start {
        Event::Start(Tag::Heading { level, .. }) => Event::End(TagEnd::Heading(*level)),
        other => other.clone(),
    }
}

/// The index of the first heading end at or after `j`, or the end of `ks`.
pub open spec fn heading_close(ks: Seq<KindModel>, j: int) -> int
    decreases ks.len() - j,
{
    if 0 <= j < ks.len() && !(ks[j] is HeadingEnd) {
        heading_close(ks, j + 1)
    } else {
        j
    }
}

/// Where the heading close lies, and that no heading end comes before it.
pub proof fn lemma_heading_close(ks: Seq<KindModel>, j: int)
    requires
        0 <= j <= ks.len(),
    ensures
        j <= heading_close(ks, j) <= ks.len(),
        heading_close(ks, j) < ks.len() ==> ks[heading_close(ks, j)] is HeadingEnd,
        forall|t: int| j <= t < heading_close(ks, j) ==> !(ks[t] is HeadingEnd),
    decreases ks.len() - j,
{
    if j < ks.len() && !(ks[j] is HeadingEnd) {
        lemma_heading_close(ks, j + 1);
    }
}

/// The text a heading's slug is made from that an event contributes.
pub open spec fn text_of(k: KindModel) -> Seq<char> {
    match k {
        KindModel::Text { text } => text,
        KindModel::Code { text } => text,
        _ => seq![],
    }
}

/// The text and code of `ks[a..b]`, concatenated.
pub open spec fn collected_text(ks: Seq<KindModel>, a: int, b: int) -> Seq<char>
    decreases b - a,
{
    if a >= b {
        seq![]
    } else {
        collected_text(ks, a, b - 1) + text_of(ks[b - 1])
    }
}

/// The kinds [`assign_section_anchors`] produces from `ks[k..]`, given the
/// slugs seen so far: a heading without an `id` gets the unique slug of its
/// text and code, and is closed by a heading end; every other event is kept.
pub open spec fn anchors_from(ks: Seq<KindModel>, k: int, seen: Map<Seq<char>, nat>) -> Seq<
    KindModel,
>
    decreases ks.len() - k,
{
    if k < 0 || k >= ks.len() {
        seq![]
    } else if ks[k] == (KindModel::HeadingStart { id: None }) {
        let c = heading_close(ks, k + 1);
        let us = unique_slug_spec(collected_text(ks, k + 1, c), seen);
        proof {
            lemma_heading_close(ks, k + 1);
        }
        let next = if c < ks.len() {
            c + 1
        } else {
            c
        };
        seq![KindModel::HeadingStart { id: Some(us.0) }] + ks.subrange(k + 1, c) + seq![
            KindModel::HeadingEnd,
        ] + anchors_from(ks, next, us.1)
    } else {
        seq![ks[k]] + anchors_from(ks, k + 1, seen)
    }
}

/// The kinds [`assign_section_anchors`] produces from `ks`.
pub open spec fn anchors_spec(ks: Seq<KindModel>) -> Seq<KindModel> {
    anchors_from(ks, 0, Map::empty())
}

/// The `pulldown_cmark` events [`assign_section_anchors`] produces from
/// `rs[k..]`, given the slugs seen so far: the same scan as
/// [`anchors_from`], over the events themselves. A heading start without an
/// `id` gets the unique slug, its events are kept, and the heading end is
/// the one its start calls for.
pub open spec fn anchors_raw_from(rs: Seq<Event<'static>>, k: int, seen: Map<Seq<char>, nat>) -> Seq<
    Event<'static>,
>
    decreases rs.len() - k,
{
    let ks = kinds_of(rs);
    if k < 0 || k >= rs.len() {
        seq![]
    } else if ks[k] == (KindModel::HeadingStart { id: None }) {
        let c = heading_close(ks, k + 1);
        let us = unique_slug_spec(collected_text(ks, k + 1, c), seen);
        proof {
            lemma_heading_close(ks, k + 1);
        }
        let next = if c < rs.len() {
            c + 1
        } else {
            c
        };
        seq![event_with_id(rs[k], us.0)] + rs.subrange(k + 1, c) + seq![heading_end_of(rs[k])]
            + anchors_raw_from(rs, next, us.1)
    } else {
        seq![rs[k]] + anchors_raw_from(rs, k + 1, seen)
    }
}

/// The `pulldown_cmark` events [`assign_section_anchors`] produces from `rs`.
pub open spec fn anchors_raw(rs: Seq<Event<'static>>) -> Seq<Event<'static>> {
    anchors_raw_from(rs, 0, Map::empty())
}

fn reverse_events(v: Vec<MdEvent>) -> (r: Vec<MdEvent>)
    ensures
        r@ == v@.reverse(),
{
    let mut v = v;
    let ghost orig = v@;
    let mut out: Vec<MdEvent> = Vec::new();
    while v.len() > 0
        invariant
            orig == v@ + out@.reverse(),
        decreases v@.len(),
    {
        let ghost before = v@;
        let e = v.pop().unwrap();
        let ghost old_out = out@;
        out.push(e);
        assert(out@.reverse() =~= seq![e] + old_out.reverse());
        assert(before =~= v@ + seq![e]);
        assert(orig =~= v@ + out@.reverse());
    }
    assert(out@.reverse().reverse() =~= out@);
    assert(orig =~= out@.reverse());
    assert(orig.reverse() =~= out@);
    out
}

fn top_is_heading_end(stack: &Vec<MdEvent>) -> (r: bool)
    requires
        stack@.len() > 0,
    ensures
        r == (stack@.last().kind is HeadingEnd),
{
    match &stack[stack.len() - 1].kind {
        EventKind::HeadingEnd => true,
        _ => false,
    }
}

/// Assigns a slug `id` to every heading in `events` that does not already
/// have one, using [`unique_slug`] with a document-wide table to derive it
/// from the heading's own text and code.
pub fn assign_section_anchors(events: Vec<MdEvent>) -> (r: Vec<MdEvent>)
    requires
        all_wf(events@),
    ensures
        all_wf(r@),
        kinds(r@) == anchors_spec(kinds(events@)),
        raws(r@) == anchors_raw(raws(events@)),
{
    let ghost ks = kinds(events@);
    let ghost rs = raws(events@);
    proof {
        lemma_kinds_of_raws(events@);
    }
    let n = events.len();
    let mut stack = reverse_events(events);
    let mut out: Vec<MdEvent> = Vec::new();
    let mut seen = SlugTable::new();
    let mut k: usize = 0;
    assert(kinds(out@) + anchors_from(ks, 0, seen@) =~= anchors_spec(ks));
    assert(raws(out@) + anchors_raw_from(rs, 0, seen@) =~= anchors_raw(rs));
    while stack.len() > 0
        invariant
            n == ks.len(),
            n == rs.len(),
            ks == kinds_of(rs),
            forall|t: int| 0 <= t < n - k ==> (#[trigger] stack@[t]).raw == rs[n - 1 - t] && stack@[t].wf(),
            all_wf(out@),
            raws(out@) + anchors_raw_from(rs, k as int, seen@) == anchors_raw(rs),
            n <= usize::MAX,
            0 <= k <= n,
            stack@.len() == n - k,
            forall|t: int| 0 <= t < n - k ==> kind_model(#[trigger] stack@[t].kind) == ks[n - 1 - t],
            seen.wf(),
            forall|key: Seq<char>| seen@.contains_key(key) ==> seen@[key] < k,
            kinds(out@) + anchors_from(ks, k as int, seen@) == anchors_spec(ks),
        decreases stack@.len(),
    {
        let e = stack.pop().unwrap();
        assert(kind_model(e.kind) == ks[k as int]);
        let ghost old_out = out@;
        let is_fresh_heading = match &e.kind {
            EventKind::HeadingStart { id: None } => true,
            _ => false,
        };
        assert(e.raw == rs[k as int] && e.wf());
        if !is_fresh_heading {
            out.push(e);
            assert(raws(out@) =~= raws(old_out).push(rs[k as int]));
            assert(raws(old_out) + (seq![rs[k as int]] + anchors_raw_from(rs, k + 1, seen@)) =~= raws(
                out@,
            ) + anchors_raw_from(rs, k + 1, seen@));
            assert(kinds(out@) =~= kinds(old_out).push(ks[k as int]));
            assert(kinds(old_out) + (seq![ks[k as int]] + anchors_from(ks, k + 1, seen@)) =~= kinds(
                out@,
            ) + anchors_from(ks, k + 1, seen@));
            k = k + 1;
            continue;
        }
        let mut inner: Vec<MdEvent> = Vec::new();
        let mut text: Vec<char> = Vec::new();
        let mut j: usize = k + 1;
        proof {
            lemma_heading_close(ks, k + 1);
            assert(ks.subrange(k + 1, j as int) =~= Seq::<KindModel>::empty());
        }
        assert(inner@.len() == 0);
        while stack.len() > 0 && !top_is_heading_end(&stack)
            invariant
                n == ks.len(),
                n == rs.len(),
                forall|t: int| 0 <= t < n - j ==> (#[trigger] stack@[t]).raw == rs[n - 1 - t] && stack@[t].wf(),
                forall|t: int| 0 <= t < inner@.len() ==> (#[trigger] inner@[t]).raw == rs[k + 1 + t] && inner@[t].wf(),
                inner@.len() == j - k - 1,
                k + 1 <= j <= n,
                stack@.len() == n - j,
                forall|t: int| 0 <= t < n - j ==> kind_model(#[trigger] stack@[t].kind) == ks[n - 1 - t],
                heading_close(ks, k + 1) == heading_close(ks, j as int),
                kinds(inner@) == ks.subrange(k + 1, j as int),
                text@ == collected_text(ks, k + 1, j as int),
            decreases stack@.len(),
        {
            let ev = stack.pop().unwrap();
            assert(kind_model(ev.kind) == ks[j as int]);
            match &ev.kind {
                EventKind::Text { text: t } => {
                    let tv = chars_of(t.as_str());
                    push_chars(&mut text, tv.as_slice());
                },
                EventKind::Code { text: t } => {
                    let tv = chars_of(t.as_str());
                    push_chars(&mut text, tv.as_slice());
                },
                _ => {},
            }
            let ghost old_inner = inner@;
            inner.push(ev);
            assert(kinds(inner@) =~= kinds(old_inner).push(ks[j as int]));
            assert(ks.subrange(k + 1, j + 1) =~= ks.subrange(k + 1, j as int).push(ks[j as int]));
            j = j + 1;
        }
        proof {
            if stack@.len() > 0 {
                assert(kind_model(stack@[stack@.len() - 1].kind) == ks[j as int]);
            }
            lemma_heading_close(ks, j as int);
        }
        let c = j;
        if stack.len() > 0 {
            let _end = stack.pop();
            j = j + 1;
        }
        let heading_text = string_of(text.as_slice());
        let ghost seen0 = seen@;
        assert forall|key: Seq<char>| seen@.contains_key(key) implies seen@[key] < u64::MAX by {}
        let slug = unique_slug(heading_text.as_str(), &mut seen);
        let end_raw = heading_end_raw(&e.raw);
        let ghost slug_v = slug@;
        let start = set_heading_id(e, slug);
        let ghost o1 = out@;
        out.push(start);
        let ghost o2 = out@;
        assert(kinds(o2) =~= kinds(o1).push(KindModel::HeadingStart { id: Some(slug_v) }));
        let ghost inner_orig = inner@;
        assert(kinds(inner_orig) == ks.subrange(k + 1, c as int));
        assert(raws(inner_orig) =~= rs.subrange(k + 1, c as int));
        assert(raws(o2) =~= raws(o1).push(event_with_id(rs[k as int], slug_v)));
        for ev in it: inner
            invariant
                it.seq() == inner_orig,
                out@.len() == o2.len() + it.index(),
                kinds(out@) == kinds(o2) + kinds(it.seq()).take(it.index() as int),
                raws(out@) == raws(o2) + raws(it.seq()).take(it.index() as int),
                all_wf(out@),
                forall|t: int| 0 <= t < inner_orig.len() ==> (#[trigger] inner_orig[t]).wf(),
        {
            let ghost before = out@;
            assert(ev == inner_orig[it.index() as int]);
            out.push(ev);
            assert(raws(out@) =~= raws(before).push(ev.raw));
            assert(raws(it.seq()).take(it.index() + 1) =~= raws(it.seq()).take(
                it.index() as int,
            ).push(ev.raw));
            assert(kinds(out@) =~= kinds(before).push(kind_model(ev.kind)));
            assert(kinds(it.seq()).take(it.index() + 1) =~= kinds(it.seq()).take(
                it.index() as int,
            ).push(kind_model(ev.kind)));
        }
        let ghost o3 = out@;
        assert(raws(inner_orig).take(inner_orig.len() as int) == raws(inner_orig));
        out.push(MdEvent { kind: EventKind::HeadingEnd, raw: end_raw });
        assert(kinds(out@) =~= kinds(o3).push(KindModel::HeadingEnd));
        assert(raws(out@) =~= raws(o3).push(heading_end_of(rs[k as int])));
        proof {
            let us = unique_slug_spec(collected_text(ks, k + 1, c as int), seen0);
            assert(c == heading_close(ks, k + 1));
            assert(kinds(inner_orig).take(inner_orig.len() as int) == kinds(inner_orig));
            assert(kinds(out@) =~= kinds(old_out) + (seq![KindModel::HeadingStart { id: Some(us.0) }]
                + ks.subrange(k + 1, c as int) + seq![KindModel::HeadingEnd]));
            assert(raws(out@) =~= raws(old_out) + (seq![event_with_id(rs[k as int], us.0)]
                + rs.subrange(k + 1, c as int) + seq![heading_end_of(rs[k as int])]));
            assert forall|key: Seq<char>| seen@.contains_key(key) implies seen@[key] < j by {
                if key != base_slug(collected_text(ks, k + 1, c as int)) {
                    assert(seen0.contains_key(key));
                }
            }
        }
        k = j;
    }
    assert(anchors_from(ks, k as int, seen@) == Seq::<KindModel>::empty());
    assert(kinds(out@) + Seq::<KindModel>::empty() =~= kinds(out@));
    assert(anchors_raw_from(rs, k as int, seen@) == Seq::<Event<'static>>::empty());
    assert(raws(out@) + Seq::<Event<'static>>::empty() =~= raws(out@));
    out
}

/// Whether no heading start in `ks` is followed by another heading start
/// before the heading end that closes it (as a parser never nests headings).
pub open spec fn headings_flat(ks: Seq<KindModel>) -> bool {
    forall|i: int, t: int|
        #![trigger ks[i], ks[t]]
        0 <= i < ks.len() && ks[i] is HeadingStart && i < t < heading_close(ks, i + 1) ==> !(
        ks[t] is HeadingStart)
}

/// Whether `ks[k..]` holds no heading start without an `id`.
pub open spec fn no_fresh_heading_from(ks: Seq<KindModel>, k: int) -> bool {
    forall|t: int| k <= t < ks.len() ==> #[trigger] ks[t] != (KindModel::HeadingStart { id: None })
}

proof fn lemma_anchors_keep(ks: Seq<KindModel>, k: int, seen: Map<Seq<char>, nat>)
    requires
        0 <= k <= ks.len(),
        no_fresh_heading_from(ks, k),
    ensures
        anchors_from(ks, k, seen) == ks.skip(k),
    decreases ks.len() - k,
{
    if k < ks.len() {
        assert(ks[k] != (KindModel::HeadingStart { id: None }));
        lemma_anchors_keep(ks, k + 1, seen);
        assert(seq![ks[k]] + ks.skip(k + 1) =~= ks.skip(k));
    } else {
        assert(ks.skip(k) =~= Seq::<KindModel>::empty());
    }
}

proof fn lemma_anchors_assign_all(ks: Seq<KindModel>, k: int, seen: Map<Seq<char>, nat>)
    requires
        0 <= k <= ks.len(),
        headings_flat(ks),
    ensures
        no_fresh_heading_from(anchors_from(ks, k, seen), 0),
    decreases ks.len() - k,
{
    if k < ks.len() {
        if ks[k] == (KindModel::HeadingStart { id: None }) {
            let c = heading_close(ks, k + 1);
            lemma_heading_close(ks, k + 1);
            let us = unique_slug_spec(collected_text(ks, k + 1, c), seen);
            let next = if c < ks.len() {
                c + 1
            } else {
                c
            };
            lemma_anchors_assign_all(ks, next, us.1);
            let mid = ks.subrange(k + 1, c);
            let rest = anchors_from(ks, next, us.1);
            let out = seq![KindModel::HeadingStart { id: Some(us.0) }] + mid + seq![
                KindModel::HeadingEnd,
            ] + rest;
            assert(anchors_from(ks, k, seen) == out);
            assert forall|t: int| 0 <= t < out.len() implies #[trigger] out[t] != (
            KindModel::HeadingStart { id: None }) by {
                if 1 <= t < 1 + mid.len() {
                    assert(out[t] == ks[k + t]);
                    assert(ks[k] is HeadingStart);
                    assert(!(ks[k + t] is HeadingStart));
                } else if t >= 2 + mid.len() {
                    assert(out[t] == rest[t - 2 - mid.len()]);
                }
            }
        } else {
            lemma_anchors_assign_all(ks, k + 1, seen);
            let rest = anchors_from(ks, k + 1, seen);
            let out = seq![ks[k]] + rest;
            assert forall|t: int| 0 <= t < out.len() implies #[trigger] out[t] != (
            KindModel::HeadingStart { id: None }) by {
                if t >= 1 {
                    assert(out[t] == rest[t - 1]);
                }
            }
        }
    }
}

/// A second anchor pass is a no-op: after one pass every heading carries an
/// `id`, and a heading that already has one is left alone. Stated for event
/// streams whose headings do not nest, as a parser produces them; on a
/// heading start nested inside another heading the first pass leaves the
/// inner start without an `id`, and a second pass assigns one.
pub proof fn lemma_anchors_idempotent(ks: Seq<KindModel>)
    requires
        headings_flat(ks),
    ensures
        anchors_spec(anchors_spec(ks)) == anchors_spec(ks),
{
    lemma_anchors_assign_all(ks, 0, Map::empty());
    let a = anchors_spec(ks);
    lemma_anchors_keep(a, 0, Map::empty());
    assert(a.skip(0) =~= a);
}

/// The kinds of `ks` other than heading starts and ends, in order: every
/// text, code, link, image and other event.
pub open spec fn without_headings(ks: Seq<KindModel>) -> Seq<KindModel>
    decreases ks.len(),
{
    if ks.len() == 0 {
        seq![]
    } else if ks[0] is HeadingStart || ks[0] is HeadingEnd {
        without_headings(ks.drop_first())
    } else {
        seq![ks[0]] + without_headings(ks.drop_first())
    }
}

proof fn lemma_without_headings_append(a: Seq<KindModel>, b: Seq<KindModel>)
    ensures
        without_headings(a + b) == without_headings(a) + without_headings(b),
    decreases a.len(),
{
    if a.len() == 0 {
        assert(a + b =~= b);
    } else {
        lemma_without_headings_append(a.drop_first(), b);
        assert((a + b).drop_first() =~= a.drop_first() + b);
        assert((a + b)[0] == a[0]);
    }
}

proof fn lemma_anchors_from_lossless(ks: Seq<KindModel>, k: int, seen: Map<Seq<char>, nat>)
    requires
        0 <= k <= ks.len(),
    ensures
        without_headings(anchors_from(ks, k, seen)) == without_headings(ks.skip(k)),
    decreases ks.len() - k,
{
    if k == ks.len() {
        assert(ks.skip(k) =~= Seq::<KindModel>::empty());
    } else if ks[k] == (KindModel::HeadingStart { id: None }) {
        let c = heading_close(ks, k + 1);
        lemma_heading_close(ks, k + 1);
        let us = unique_slug_spec(collected_text(ks, k + 1, c), seen);
        let next = if c < ks.len() {
            c + 1
        } else {
            c
        };
        lemma_anchors_from_lossless(ks, next, us.1);
        let start = seq![KindModel::HeadingStart { id: Some(us.0) }];
        let mid = ks.subrange(k + 1, c);
        let end = seq![KindModel::HeadingEnd];
        let rest = anchors_from(ks, next, us.1);
        lemma_without_headings_append(start + mid + end, rest);
        lemma_without_headings_append(start + mid, end);
        lemma_without_headings_append(start, mid);
        assert(without_headings(start.drop_first()) =~= Seq::<KindModel>::empty());
        assert(without_headings(end.drop_first()) =~= Seq::<KindModel>::empty());
        let head = seq![ks[k]];
        assert(without_headings(head.drop_first()) =~= Seq::<KindModel>::empty());
        if c < ks.len() {
            assert(ks.skip(k) =~= head + mid + end + ks.skip(c + 1));
            lemma_without_headings_append(head + mid + end, ks.skip(c + 1));
            lemma_without_headings_append(head + mid, end);
            lemma_without_headings_append(head, mid);
        } else {
            assert(ks.skip(k) =~= head + mid + ks.skip(c));
            lemma_without_headings_append(head + mid, ks.skip(c));
            lemma_without_headings_append(head, mid);
            assert(ks.skip(c) =~= Seq::<KindModel>::empty());
            assert(rest =~= Seq::<KindModel>::empty());
        }
    } else {
        lemma_anchors_from_lossless(ks, k + 1, seen);
        let head = seq![ks[k]];
        lemma_without_headings_append(head, anchors_from(ks, k + 1, seen));
        lemma_without_headings_append(head, ks.skip(k + 1));
        assert(ks.skip(k) =~= head + ks.skip(k + 1));
        assert(head.drop_first() =~= Seq::<KindModel>::empty());
    }
}

/// The anchor pass is lossless: apart from heading starts and ends, it keeps
/// every event as it was, in order, so every text and code span, link and
/// image survives it unchanged.
pub proof fn lemma_anchors_lossless(ks: Seq<KindModel>)
    ensures
        without_headings(anchors_spec(ks)) == without_headings(ks),
{
    lemma_anchors_from_lossless(ks, 0, Map::empty());
    assert(ks.skip(0) =~= ks);
}

/// The text and code spans of `ks`, in order, with every other event left out.
pub open spec fn spans_only(ks: Seq<KindModel>) -> Seq<KindModel>
    decreases ks.len(),
{
    if ks.len() == 0 {
        seq![]
    } else if ks.last() is Text || ks.last() is Code {
        spans_only(ks.drop_last()).push(ks.last())
    } else {
        spans_only(ks.drop_last())
    }
}

proof fn lemma_collected_sub(ks: Seq<KindModel>, a: int, b: int)
    requires
        0 <= a <= b <= ks.len(),
    ensures
        collected_text(ks, a, b) == collected_text(ks.subrange(a, b), 0, b - a),
    decreases b - a,
{
    if a < b {
        lemma_collected_sub(ks, a, b - 1);
        let s1 = ks.subrange(a, b);
        lemma_collected_sub(s1, 0, b - a - 1);
        assert(s1.subrange(0, b - a - 1) =~= ks.subrange(a, b - 1));
        assert(s1[b - a - 1] == ks[b - 1]);
    }
}

proof fn lemma_spans_text(s: Seq<KindModel>)
    ensures
        collected_text(s, 0, s.len() as int) == collected_text(
            spans_only(s),
            0,
            spans_only(s).len() as int,
        ),
    decreases s.len(),
{
    if s.len() > 0 {
        let d = s.drop_last();
        let x = s.last();
        lemma_spans_text(d);
        lemma_collected_sub(s, 0, d.len() as int);
        assert(s.subrange(0, d.len() as int) =~= d);
        let sd = spans_only(d);
        if x is Text || x is Code {
            let sp = sd.push(x);
            lemma_collected_sub(sp, 0, sd.len() as int);
            assert(sp.subrange(0, sd.len() as int) =~= sd);
        }
    }
}

/// A heading's slug text is made of its text and code spans only: every
/// other event inside the heading (emphasis, strong, link boundaries) adds
/// nothing, so the text is that of the spans alone, a text or code span
/// gives exactly its own text, and the text of a range is that of its parts
/// one after the other.
pub proof fn lemma_slug_text_is_spans_only(ks: Seq<KindModel>, a: int, b: int, c: int)
    requires
        0 <= a <= b <= c <= ks.len(),
    ensures
        collected_text(ks, a, c) == collected_text(
            spans_only(ks.subrange(a, c)),
            0,
            spans_only(ks.subrange(a, c)).len() as int,
        ),
        collected_text(ks, a, c) == collected_text(ks, a, b) + collected_text(ks, b, c),
        forall|t: Seq<char>| collected_text(seq![KindModel::Text { text: t }], 0, 1) == t,
        forall|t: Seq<char>| collected_text(seq![KindModel::Code { text: t }], 0, 1) == t,
    decreases c - b,
{
    lemma_collected_sub(ks, a, c);
    lemma_spans_text(ks.subrange(a, c));
    if b < c {
        lemma_slug_text_is_spans_only(ks, a, b, c - 1);
    }
    assert forall|t: Seq<char>| collected_text(seq![KindModel::Text { text: t }], 0, 1) == t by {
        assert(collected_text(seq![KindModel::Text { text: t }], 0, 0) == Seq::<char>::empty());
        assert(Seq::<char>::empty() + t =~= t);
    }
    assert forall|t: Seq<char>| collected_text(seq![KindModel::Code { text: t }], 0, 1) == t by {
        assert(collected_text(seq![KindModel::Code { text: t }], 0, 0) == Seq::<char>::empty());
        assert(Seq::<char>::empty() + t =~= t);
    }
}

proof fn lemma_link_dests_without_headings(ks: Seq<KindModel>)
    ensures
        link_dests(without_headings(ks)) == link_dests(ks),
    decreases ks.len(),
{
    if ks.len() > 0 {
        lemma_link_dests_without_headings(ks.drop_first());
        if !(ks[0] is HeadingStart || ks[0] is HeadingEnd) {
            let w = seq![ks[0]] + without_headings(ks.drop_first());
            assert(w[0] == ks[0]);
            assert(w.drop_first() =~= without_headings(ks.drop_first()));
        }
    }
}

/// The anchor pass keeps every link and image destination, in order.
pub proof fn lemma_anchors_keep_links(ks: Seq<KindModel>)
    ensures
        link_dests(anchors_spec(ks)) == link_dests(ks),
{
    lemma_anchors_lossless(ks);
    lemma_link_dests_without_headings(ks);
    lemma_link_dests_without_headings(anchors_spec(ks));
}

} // verus!
