//! Link and image destination normalization.
//!
//! An event-level pass: a destination with backslashes or duplicate slashes
//! parses into a valid `Link`/`Image` event with the raw destination preserved
//! verbatim, and that valid-but-messy shape is rewritten here, with no risk of
//! creating or losing a link.
//!
//! **Never touches a destination containing `://` or starting with `//`.**
//! Real hyperlinks (`https://...`) and protocol-relative references
//! (`//example.com/...`) carry a meaningful `//`. Everything else gets
//! backslashes converted to forward slashes and runs of slashes collapsed to
//! one.

use vstd::prelude::*;
use vstd::slice::slice_to_vec;

use pulldown_cmark::Event;

use crate::refine::roundtrip::{
    all_wf, event_kind, event_with_dest, kind_model, raws, set_destination, EventKind, KindModel,
    MdEvent,
};
use crate::text::{
    chars_of, contains_seq, contains_slice, starts_with, starts_with_slice, string_of,
};

verus! {

/// `s` with every `\` replaced by `/`.
pub open spec fn backslashes_to_slashes(s: Seq<char>) -> Seq<char> {
    s.map_values(|c: char| if c == '\\' { '/' } else { c })
}

/// `s` with every run of `/` collapsed to a single `/`.
pub open spec fn collapse_slashes(s: Seq<char>) -> Seq<char>
    decreases s.len(),
{
    if s.len() == 0 {
        seq![]
    } else if s.last() == '/' && s.len() >= 2 && s[s.len() - 2] == '/' {
        collapse_slashes(s.drop_last())
    } else {
        collapse_slashes(s.drop_last()).push(s.last())
    }
}

/// Whether a destination is a URL or protocol-relative reference to leave alone.
pub open spec fn is_untouchable(url: Seq<char>) -> bool {
    contains_seq(url, seq![':', '/', '/']) || starts_with(url, seq!['/', '/'])
}

/// What [`normalize`] returns for `url`.
pub open spec fn normalize_spec(url: Seq<char>) -> Seq<char> {
    if is_untouchable(url) {
        url
    } else {
        collapse_slashes(backslashes_to_slashes(url))
    }
}

/// Collapses every run of `/` in `s` to one `/`.
pub fn collapse_duplicate_slashes(s: &[char]) -> (r: Vec<char>)
    ensures
        r@ == collapse_slashes(s@),
{
    let mut out: Vec<char> = Vec::new();
    let mut prev_was_slash = false;
    let mut i: usize = 0;
    assert(s@.take(0) =~= Seq::<char>::empty());
    while i < s.len()
        invariant
            0 <= i <= s@.len(),
            out@ == collapse_slashes(s@.take(i as int)),
            prev_was_slash == (i > 0 && s@[i - 1] == '/'),
        decreases s@.len() - i,
    {
        let c = s[i];
        assert(s@.take(i + 1).drop_last() == s@.take(i as int));
        assert(s@.take(i + 1).last() == c);
        if c == '/' {
            if prev_was_slash {
                assert(s@.take(i + 1)[i - 1] == '/');
                i = i + 1;
                continue;
            }
            prev_was_slash = true;
        } else {
            prev_was_slash = false;
        }
        proof {
            if i > 0 {
                assert(s@.take(i + 1)[i - 1] == s@[i - 1]);
            }
        }
        out.push(c);
        i = i + 1;
    }
    assert(s@.take(s@.len() as int) == s@);
    out
}

/// Rewrites a link or image destination: backslashes become forward slashes
/// and runs of slashes collapse to one, unless the destination contains
/// `://` or starts with `//`.
pub fn normalize(url: &str) -> (r: String)
    ensures
        r@ == normalize_spec(url@),
{
    let u = chars_of(url);
    let out = normalize_chars(u.as_slice());
    string_of(out.as_slice())
}

/// [`normalize`] over characters.
pub fn normalize_chars(url: &[char]) -> (r: Vec<char>)
    ensures
        r@ == normalize_spec(url@),
{
    let scheme = vec![':', '/', '/'];
    let two = vec!['/', '/'];
    assert(scheme@ =~= seq![':', '/', '/']);
    assert(two@ =~= seq!['/', '/']);
    if contains_slice(url, scheme.as_slice()) || starts_with_slice(url, two.as_slice()) {
        return slice_to_vec(url);
    }
    let mut forward: Vec<char> = Vec::new();
    let mut i: usize = 0;
    while i < url.len()
        invariant
            0 <= i <= url@.len(),
            forward@ == backslashes_to_slashes(url@.take(i as int)),
        decreases url@.len() - i,
    {
        let c = url[i];
        forward.push(if c == '\\' { '/' } else { c });
        assert(forward@ =~= backslashes_to_slashes(url@.take(i + 1)));
        i = i + 1;
    }
    assert(url@.take(url@.len() as int) == url@);
    collapse_duplicate_slashes(forward.as_slice())
}

/// The kind after destination normalization.
pub open spec fn normalized_kind(k: KindModel) -> KindModel {
    match k {
        KindModel::Link { dest } => KindModel::Link { dest: normalize_spec(dest) },
        KindModel::Image { dest } => KindModel::Image { dest: normalize_spec(dest) },
        _ => k,
    }
}

/// The `pulldown_cmark` event the link pass makes of `e`: a link or image
/// start with its destination normalized; any other event as it is.
pub open spec fn link_raw(e: Event<'static>) -> Event<'static> {
    match event_kind(e) {
        KindModel::Link { dest } => event_with_dest(e, normalize_spec(dest)),
        KindModel::Image { dest } => event_with_dest(e, normalize_spec(dest)),
        _ => e,
    }
}

/// The `pulldown_cmark` events the link pass makes of `rs`.
pub open spec fn links_raw(rs: Seq<Event<'static>>) -> Seq<Event<'static>> {
    Seq::new(rs.len(), |i: int| link_raw(rs[i]))
}

/// Rewrites every link and image start event's destination with
/// [`normalize`]; every other event is left exactly as it is.
pub fn normalize_link_destinations(events: Vec<MdEvent>) -> (r: Vec<MdEvent>)
    requires
        all_wf(events@),
    ensures
        all_wf(r@),
        raws(r@) == links_raw(raws(events@)),
        r@.len() == events@.len(),
        forall|i: int|
            #![trigger r@[i]]
            0 <= i < r@.len() ==> kind_model(r@[i].kind) == normalized_kind(
                kind_model(events@[i].kind),
            ),
        forall|i: int|
            #![trigger r@[i]]
            0 <= i < r@.len() && !(events@[i].kind is Link) && !(events@[i].kind is Image) ==> r@[i]
                == events@[i],
{
    let ghost orig = events@;
    let mut out: Vec<MdEvent> = Vec::new();
    for e in it: events
        invariant
            it.seq() == orig,
            all_wf(orig),
            all_wf(out@),
            forall|i: int| 0 <= i < out@.len() ==> (#[trigger] out@[i]).raw == link_raw(orig[i].raw),
            out@.len() == it.index(),
            forall|i: int|
                #![trigger out@[i]]
                0 <= i < out@.len() ==> kind_model(out@[i].kind) == normalized_kind(
                    kind_model(orig[i].kind),
                ),
            forall|i: int|
                #![trigger out@[i]]
                0 <= i < out@.len() && !(orig[i].kind is Link) && !(orig[i].kind is Image)
                    ==> out@[i] == orig[i],
    {
        let ghost before = e;
        assert(orig[it.index() as int] == e);
        assert(e.wf());
        let rewritten = match &e.kind {
            EventKind::Link { dest } => {
                let d = normalize(dest.as_str());
                Some(d)
            },
            EventKind::Image { dest } => {
                let d = normalize(dest.as_str());
                Some(d)
            },
            _ => None,
        };
        match rewritten {
            Some(d) => out.push(set_destination(e, d)),
            None => out.push(e),
        }
    }
    assert(raws(out@) =~= links_raw(raws(orig)));
    out
}

/// Whether `s` has two `/` in a row.
pub open spec fn has_double_slash(s: Seq<char>) -> bool {
    exists|i: int| slash_pair_at(s, i)
}

/// Whether `s` has `/` at `i` and at `i + 1`.
pub open spec fn slash_pair_at(s: Seq<char>, i: int) -> bool {
    0 <= i && i + 1 < s.len() && s[i] == '/' && s[i + 1] == '/'
}

proof fn lemma_collapse_shape(s: Seq<char>)
    ensures
        !has_double_slash(collapse_slashes(s)),
        forall|j: int| 0 <= j < collapse_slashes(s).len() ==> s.contains(#[trigger] collapse_slashes(s)[j]),
        !has_double_slash(s) ==> collapse_slashes(s) == s,
        s.len() > 0 ==> collapse_slashes(s).len() > 0 && collapse_slashes(s).last() == s.last(),
    decreases s.len(),
{
    if s.len() > 0 {
        let t = s.drop_last();
        lemma_collapse_shape(t);
        let ct = collapse_slashes(t);
        assert forall|j: int| 0 <= j < ct.len() implies s.contains(#[trigger] ct[j]) by {
            let k = choose|k: int| 0 <= k < t.len() && t[k] == ct[j];
            assert(s[k] == ct[j]);
        }
        if !has_double_slash(s) {
            assert(!has_double_slash(t)) by {
                if has_double_slash(t) {
                    let i = choose|i: int| slash_pair_at(t, i);
                    assert(slash_pair_at(s, i));
                }
            }
            assert(!slash_pair_at(s, s.len() - 2));
            assert(s =~= t.push(s.last()));
        }
        let c = collapse_slashes(s);
        if s.last() == '/' && s.len() >= 2 && s[s.len() - 2] == '/' {
            assert(t.last() == '/');
        } else {
            assert forall|j: int| 0 <= j < c.len() implies s.contains(#[trigger] c[j]) by {
                if j < ct.len() {
                    assert(c[j] == ct[j]);
                } else {
                    assert(c[j] == s[s.len() - 1]);
                }
            }
            if has_double_slash(c) {
                let i = choose|i: int| slash_pair_at(c, i);
                if i + 1 < ct.len() {
                    assert(ct[i] == c[i] && ct[i + 1] == c[i + 1]);
                    assert(slash_pair_at(ct, i));
                } else {
                    assert(i == ct.len() - 1);
                    assert(ct.last() == t.last());
                    assert(s[s.len() - 2] == t.last());
                    assert(slash_pair_at(s, s.len() - 2));
                }
            }
        }
    }
}

/// Destination normalization is idempotent: a normalized destination is
/// left as it is by a second normalization.
pub proof fn lemma_normalize_idempotent(url: Seq<char>)
    ensures
        normalize_spec(normalize_spec(url)) == normalize_spec(url),
{
    if !is_untouchable(url) {
        let b = backslashes_to_slashes(url);
        let v = collapse_slashes(b);
        lemma_collapse_shape(b);
        assert(!contains_seq(v, seq![':', '/', '/'])) by {
            if contains_seq(v, seq![':', '/', '/']) {
                let i = choose|i: int| crate::text::occurs_at(v, seq![':', '/', '/'], i);
                assert(v.subrange(i, i + 3) == seq![':', '/', '/']);
                assert(v[i + 1] == v.subrange(i, i + 3)[1]);
                assert(v[i + 2] == v.subrange(i, i + 3)[2]);
                assert(slash_pair_at(v, i + 1));
            }
        }
        assert(!starts_with(v, seq!['/', '/'])) by {
            if starts_with(v, seq!['/', '/']) {
                assert(v[0] == v.subrange(0, 2)[0]);
                assert(v[1] == v.subrange(0, 2)[1]);
                assert(slash_pair_at(v, 0));
            }
        }
        assert(backslashes_to_slashes(v) =~= v) by {
            assert forall|j: int| 0 <= j < v.len() implies v[j] != '\\' by {
                let k = choose|k: int| 0 <= k < b.len() && b[k] == v[j];
            }
        }
        lemma_collapse_shape(v);
    }
}

/// The link pass is idempotent on what it rewrites: a second pass leaves
/// every event's kind as the first pass left it.
pub proof fn lemma_normalized_kind_idempotent(k: KindModel)
    ensures
        normalized_kind(normalized_kind(k)) == normalized_kind(k),
{
    match k {
        KindModel::Link { dest } => lemma_normalize_idempotent(dest),
        KindModel::Image { dest } => lemma_normalize_idempotent(dest),
        _ => {},
    }
}

/// What normalization does to a destination: one that contains `://` or
/// starts with `//` comes back unchanged; any other (a root-relative `/path`
/// included) comes back with no backslash and no two `/` in a row.
pub proof fn lemma_normalize_result(url: Seq<char>)
    ensures
        (contains_seq(url, seq![':', '/', '/']) || starts_with(url, seq!['/', '/']))
            ==> normalize_spec(url) == url,
        !(contains_seq(url, seq![':', '/', '/']) || starts_with(url, seq!['/', '/'])) ==> {
            &&& forall|j: int| 0 <= j < normalize_spec(url).len() ==> #[trigger] normalize_spec(url)[j] != '\\'
            &&& forall|j: int|
                0 <= j && j + 1 < normalize_spec(url).len() ==> !(#[trigger] normalize_spec(url)[j] == '/'
                    && normalize_spec(url)[j + 1] == '/')
        },
{
    if !(contains_seq(url, seq![':', '/', '/']) || starts_with(url, seq!['/', '/'])) {
        let b = backslashes_to_slashes(url);
        let v = collapse_slashes(b);
        lemma_collapse_shape(b);
        assert(normalize_spec(url) == v);
        assert forall|j: int| 0 <= j < v.len() implies #[trigger] v[j] != '\\' by {
            let k = choose|k: int| 0 <= k < b.len() && b[k] == v[j];
        }
        assert forall|j: int| 0 <= j && j + 1 < v.len() implies !(#[trigger] v[j] == '/' && v[j + 1] == '/') by {
            if v[j] == '/' && v[j + 1] == '/' {
                assert(slash_pair_at(v, j));
            }
        }
    }
}

/// The destinations of the links and images among `ks`, in order.
pub open spec fn link_dests(ks: Seq<KindModel>) -> Seq<Seq<char>>
    decreases ks.len(),
{
    if ks.len() == 0 {
        seq![]
    } else {
        let rest = link_dests(ks.drop_first());
        match ks[0] {
            KindModel::Link { dest } => seq![dest] + rest,
            KindModel::Image { dest } => seq![dest] + rest,
            _ => rest,
        }
    }
}

/// The link pass normalizes every destination and keeps their order: when
/// each event's kind is the normalized kind of the input's event at the
/// same place, the destinations are exactly the input's, each normalized.
pub proof fn lemma_link_pass_dests(ks: Seq<KindModel>, out: Seq<KindModel>)
    requires
        out.len() == ks.len(),
        forall|i: int| 0 <= i < ks.len() ==> #[trigger] out[i] == normalized_kind(ks[i]),
    ensures
        link_dests(out) == link_dests(ks).map_values(|d: Seq<char>| normalize_spec(d)),
    decreases ks.len(),
{
    if ks.len() == 0 {
        assert(link_dests(ks).map_values(|d: Seq<char>| normalize_spec(d)) =~= Seq::<Seq<char>>::empty());
    } else {
        let k2 = ks.drop_first();
        let o2 = out.drop_first();
        assert forall|i: int| 0 <= i < k2.len() implies #[trigger] o2[i] == normalized_kind(k2[i]) by {
            assert(o2[i] == out[i + 1]);
            assert(k2[i] == ks[i + 1]);
        }
        lemma_link_pass_dests(k2, o2);
        assert(out[0] == normalized_kind(ks[0]));
        let f = |d: Seq<char>| normalize_spec(d);
        match ks[0] {
            KindModel::Link { dest } => {
                assert(link_dests(ks).map_values(f) =~= seq![normalize_spec(dest)] + link_dests(k2).map_values(f));
            },
            KindModel::Image { dest } => {
                assert(link_dests(ks).map_values(f) =~= seq![normalize_spec(dest)] + link_dests(k2).map_values(f));
            },
            _ => {},
        }
    }
}

} // verus!
