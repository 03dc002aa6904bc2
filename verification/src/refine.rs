//! Refines the *shape* of already-rendered markdown without deleting any of
//! its visible text.
//!
//! It enforces two invariants across every pass it runs:
//!
//! - **Lossless**: every visible text token present before a pass is still
//!   present after it (a pass may *add* text, such as a recovered table
//!   separator row, but never remove any).
//! - **Idempotent**: `refine(refine(x)) == refine(x)`.
//!
//! The passes: table shape normalization (missing-separator recovery and
//! ragged-row widening), ordered-list renumbering (the serializer's
//! configuration), link and image path normalization, frontmatter
//! normalization, and section anchors. [`refine`] runs the CommonMark round
//! trip (parse, re-serialize) every event-level pass runs inside, plus the
//! frontmatter handling and parse-failure fallback that round trip needs.

pub mod anchor;
pub mod frontmatter;
pub mod link;
pub mod options;
pub mod roundtrip;
pub mod table;

pub use options::RefineOptions;

use vstd::prelude::*;

use crate::refine::anchor::anchors_raw;
use crate::refine::link::links_raw;
use crate::refine::roundtrip::{cmark_parse, cmark_render};
use crate::refine::frontmatter::{extract_chars, extract_spec, normalize_chars, normalize_spec};
use crate::refine::table::{
    recover_missing_separators_chars, recover_spec, widen_ragged_tables_chars, widen_spec,
};
use crate::text::{chars_of, push_chars, string_of, trim_start, trim_start_slice};

verus! {

/// The text the event-level passes parse: the body after any frontmatter,
/// with missing table separators recovered and ragged tables widened.
pub open spec fn text_passes_spec(markdown: Seq<char>) -> Seq<char> {
    widen_spec(recover_spec(extract_spec(markdown).1))
}

/// What [`refine`] returns, given the re-serialized body: the markdown
/// unchanged when serialization failed; otherwise the body, after the
/// normalized frontmatter block and a newline when there is frontmatter.
pub open spec fn assemble_spec(markdown: Seq<char>, body: Option<Seq<char>>) -> Seq<char> {
    match body {
        None => markdown,
        Some(b) => match extract_spec(markdown).0 {
            Some(fm) => normalize_spec(fm) + seq!['\n'] + trim_start(b),
            None => b,
        },
    }
}

/// The view of an optional string.
pub open spec fn opt_view(o: Option<String>) -> Option<Seq<char>> {
    match o {
        Some(s) => Some(s@),
        None => None,
    }
}

/// Runs the text-level passes over the body of `markdown`: frontmatter is
/// split off, then missing table separators are recovered and ragged tables
/// widened.
pub fn text_passes(markdown: &str) -> (r: String)
    ensures
        r@ == text_passes_spec(markdown@),
{
    let md = chars_of(markdown);
    let (_fm, content) = extract_chars(md.as_slice());
    let recovered = recover_missing_separators_chars(content.as_slice());
    let recovered_str = string_of(recovered.as_slice());
    let widened = widen_ragged_tables_chars(recovered_str.as_str(), recovered.as_slice());
    string_of(widened.as_slice())
}

/// Puts a refined document together from its re-serialized body: `markdown`
/// itself when serialization failed (`None`); otherwise the normalized
/// frontmatter block, a newline and the body with its leading whitespace
/// trimmed, or just the body when `markdown` has no frontmatter.
pub fn assemble_refined(markdown: &str, body: Option<String>) -> (r: String)
    ensures
        r@ == assemble_spec(markdown@, opt_view(body)),
{
    match body {
        None => string_of(chars_of(markdown).as_slice()),
        Some(b) => {
            let md = chars_of(markdown);
            let (fm, _content) = extract_chars(md.as_slice());
            match fm {
                Some(f) => {
                    let mut out = normalize_chars(f.as_slice());
                    out.push('\n');
                    let bv = chars_of(b.as_str());
                    push_chars(&mut out, trim_start_slice(bv.as_slice()));
                    string_of(out.as_slice())
                },
                None => b,
            }
        },
    }
}

/// The re-serialized body [`refine`] puts together: the text passes' output
/// parsed as CommonMark, its link and image destinations normalized and its
/// headings anchored, then serialized (`None` when serialization fails).
pub open spec fn refined_body(markdown: Seq<char>) -> Option<Seq<char>> {
    cmark_render(anchors_raw(links_raw(cmark_parse(text_passes_spec(markdown)))))
}

/// Refines the shape of `markdown` without deleting any of its visible text.
///
/// Returns `markdown` unchanged if its events fail to re-serialize as
/// CommonMark, a defensive floor rather than an expected path.
pub fn refine(markdown: &str, options: &RefineOptions) -> (r: String)
    ensures
        r@ == assemble_spec(markdown@, refined_body(markdown@)),
        exists|evs: Seq<roundtrip::MdEvent>|
            #![trigger roundtrip::kinds(evs)]
            {
                &&& roundtrip::all_wf(evs)
                &&& refined_body(markdown@) == cmark_render(roundtrip::raws(evs))
                &&& link::link_dests(roundtrip::kinds(evs)) == link::link_dests(
                    roundtrip::kinds_of(cmark_parse(text_passes_spec(markdown@))),
                ).map_values(|d: Seq<char>| link::normalize_spec(d))
            },
{
    let _ = options;
    let text = text_passes(markdown);
    let parsed = roundtrip::parse(text.as_str());
    let ghost ks0 = roundtrip::kinds(parsed@);
    proof {
        roundtrip::lemma_kinds_of_raws(parsed@);
    }
    let linked = link::normalize_link_destinations(parsed);
    let ghost ks1 = roundtrip::kinds(linked@);
    proof {
        link::lemma_link_pass_dests(ks0, ks1);
    }
    let events = anchor::assign_section_anchors(linked);
    proof {
        anchor::lemma_anchors_keep_links(ks1);
        assert(roundtrip::kinds(events@) == anchor::anchors_spec(ks1));
    }
    let body = roundtrip::serialize(events.as_slice());
    assert(opt_view(body) == roundtrip::opt_chars(body));
    assemble_refined(markdown, body)
}

} // verus!
