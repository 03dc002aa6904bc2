//! The CommonMark parse and re-serialize round trip every event-level pass
//! runs inside.
//!
//! Each parsed event is kept whole, for serialization, beside the part of it
//! the passes read and rewrite: a heading's `id`, a link or image destination,
//! the text of a text or code span.

use pulldown_cmark::{CowStr, Event, Options, Parser, Tag, TagEnd};
use vstd::prelude::*;

verus! {

#[verifier::external_type_specification]
#[verifier::external_body]
pub struct ExEvent<'a>(Event<'a>);

/// What the event-level passes read of an event.
pub enum EventKind {
    /// The start of a heading, with the `id` it already carries.
    HeadingStart { id: Option<String> },
    /// The end of a heading.
    HeadingEnd,
    /// The start of a link, with its destination.
    Link { dest: String },
    /// The start of an image, with its destination.
    Image { dest: String },
    /// A text node.
    Text { text: String },
    /// An inline code node.
    Code { text: String },
    /// Any other event.
    Other,
}

/// One parsed event: what the passes read of it, and the event itself.
pub struct MdEvent {
    pub kind: EventKind,
    pub raw: Event<'static>,
}

/// The model of an [`EventKind`], over character sequences.
pub enum KindModel {
    HeadingStart { id: Option<Seq<char>> },
    HeadingEnd,
    Link { dest: Seq<char> },
    Image { dest: Seq<char> },
    Text { text: Seq<char> },
    Code { text: Seq<char> },
    Other,
}

pub open spec fn kind_model(k: EventKind) -> KindModel {
    match k {
        EventKind::HeadingStart { id } => KindModel::HeadingStart {
            id: match id {
                Some(s) => Some(s@),
                None => None,
            },
        },
        EventKind::HeadingEnd => KindModel::HeadingEnd,
        EventKind::Link { dest } => KindModel::Link { dest: dest@ },
        EventKind::Image { dest } => KindModel::Image { dest: dest@ },
        EventKind::Text { text } => KindModel::Text { text: text@ },
        EventKind::Code { text } => KindModel::Code { text: text@ },
        EventKind::Other => KindModel::Other,
    }
}

/// The kinds of a sequence of events.
pub open spec fn kinds(es: Seq<MdEvent>) -> Seq<KindModel> {
    Seq::new(es.len(), |i: int| kind_model(es[i].kind))
}

/// The `pulldown_cmark` events of a sequence of events.
pub open spec fn raws(es: Seq<MdEvent>) -> Seq<Event<'static>> {
    Seq::new(es.len(), |i: int| es[i].raw)
}

/// What `pulldown_cmark::Parser::new_ext` yields for `content`, with tables,
/// strikethrough and heading attributes enabled, each event made `'static`.
pub uninterp spec fn cmark_parse(content: Seq<char>) -> Seq<Event<'static>>;

/// What the passes read of a `pulldown_cmark` event.
pub uninterp spec fn event_kind(e: Event<'static>) -> KindModel;

/// The event a link or image start becomes with its destination replaced.
pub uninterp spec fn event_with_dest(e: Event<'static>, dest: Seq<char>) -> Event<'static>;

/// The event a heading start becomes with its `id` set.
pub uninterp spec fn event_with_id(e: Event<'static>, id: Seq<char>) -> Event<'static>;

/// The event that ends the heading a heading start event opens.
pub uninterp spec fn heading_end_of(e: Event<'static>) -> Event<'static>;

/// What `pulldown_cmark_to_cmark::cmark_with_options` writes for `events`,
/// with `increment_ordered_list_bullets` on and every other option at its
/// default; `None` when it reports an error.
pub uninterp spec fn cmark_render(events: Seq<Event<'static>>) -> Option<Seq<char>>;

/// The kinds of a sequence of `pulldown_cmark` events.
pub open spec fn kinds_of(rs: Seq<Event<'static>>) -> Seq<KindModel> {
    Seq::new(rs.len(), |i: int| event_kind(rs[i]))
}

impl MdEvent {
    /// Whether the kind is what the passes read of the event itself.
    pub open spec fn wf(self) -> bool {
        kind_model(self.kind) == event_kind(self.raw)
    }
}

/// Whether every event of `es` is well formed.
pub open spec fn all_wf(es: Seq<MdEvent>) -> bool {
    forall|i: int| 0 <= i < es.len() ==> (#[trigger] es[i]).wf()
}

/// For well-formed events, the kinds are the kinds of the events themselves.
pub proof fn lemma_kinds_of_raws(es: Seq<MdEvent>)
    requires
        all_wf(es),
    ensures
        kinds(es) == kinds_of(raws(es)),
{
    assert(kinds(es) =~= kinds_of(raws(es))) by {
        assert forall|i: int| 0 <= i < es.len() implies kinds(es)[i] == kinds_of(raws(es))[i] by {
            assert(es[i].wf());
        }
    }
}

/// The view of an optional string.
pub open spec fn opt_chars(o: Option<String>) -> Option<Seq<char>> {
    match o {
        Some(s) => Some(s@),
        None => None,
    }
}

/// Runs `pulldown_cmark::Parser::new_ext` over `content` with tables,
/// strikethrough and heading attributes enabled, and collects its events
/// (made `'static` with `Event::into_static`): [`cmark_parse`] of `content`.
#[verifier::external_body]
fn parse_raw(content: &str) -> (r: Vec<Event<'static>>)
    ensures
        r@ == cmark_parse(content@),
{
    let options = Options::ENABLE_TABLES | Options::ENABLE_STRIKETHROUGH
        | Options::ENABLE_HEADING_ATTRIBUTES;
    Parser::new_ext(content, options).map(|e| e.into_static()).collect()
}

/// Reads what the passes need of one `pulldown_cmark::Event`: a heading
/// start's `id`, a link or image start's `dest_url`, a text or code node's
/// text, and which of these it is ([`event_kind`]). The event itself is kept
/// unchanged.
#[verifier::external_body]
fn classify(raw: Event<'static>) -> (r: MdEvent)
    ensures
        r.raw == raw,
        kind_model(r.kind) == event_kind(raw),
{
    let kind = match &raw {
        Event::Start(Tag::Heading { id, .. }) => EventKind::HeadingStart {
            id: id.as_ref().map(|s| s.to_string()),
        },
        Event::End(TagEnd::Heading(_)) => EventKind::HeadingEnd,
        Event::Start(Tag::Link { dest_url, .. }) => EventKind::Link { dest: dest_url.to_string() },
        Event::Start(Tag::Image { dest_url, .. }) => EventKind::Image { dest: dest_url.to_string() },
        Event::Text(t) => EventKind::Text { text: t.to_string() },
        Event::Code(t) => EventKind::Code { text: t.to_string() },
        _ => EventKind::Other,
    };
    MdEvent { kind, raw }
}

/// Replaces the `dest_url` of a `pulldown_cmark` link or image start event;
/// any other event is returned as it is. Read back, the result is a link or
/// image with that destination, or the same kind as before.
#[verifier::external_body]
fn with_destination(raw: Event<'static>, dest: &str) -> (r: Event<'static>)
    ensures
        r == event_with_dest(raw, dest@),
        event_kind(r) == with_dest_kind(event_kind(raw), dest@),
{
    match raw {
        Event::Start(Tag::Link { link_type, title, id, .. }) => Event::Start(
            Tag::Link { link_type, dest_url: CowStr::from(dest.to_string()), title, id },
        ),
        Event::Start(Tag::Image { link_type, title, id, .. }) => Event::Start(
            Tag::Image { link_type, dest_url: CowStr::from(dest.to_string()), title, id },
        ),
        other => other,
    }
}

/// Sets the `id` of a `pulldown_cmark` heading start event; any other event
/// is returned as it is. Read back, a heading start has that `id`.
#[verifier::external_body]
fn with_heading_id(raw: Event<'static>, id: &str) -> (r: Event<'static>)
    ensures
        r == event_with_id(raw, id@),
        event_kind(raw) is HeadingStart ==> event_kind(r) == (KindModel::HeadingStart {
            id: Some(id@),
        }),
{
    match raw {
        Event::Start(Tag::Heading { level, classes, attrs, .. }) => Event::Start(
            Tag::Heading { level, id: Some(CowStr::from(id.to_string())), classes, attrs },
        ),
        other => other,
    }
}

/// Serializes the events with `pulldown_cmark_to_cmark::cmark_with_options`
/// into a `String`, with `increment_ordered_list_bullets` on and every other
/// option at its default, so an ordered list is renumbered sequentially from
/// its first number: [`cmark_render`] of the events, `None` when the
/// serializer reports an error.
#[verifier::external_body]
fn serialize_raw(events: &[MdEvent]) -> (r: Option<String>)
    ensures
        opt_chars(r) == cmark_render(raws(events@)),
{
    let options = pulldown_cmark_to_cmark::Options {
        increment_ordered_list_bullets: true,
        ..Default::default()
    };
    let mut output = String::new();
    pulldown_cmark_to_cmark::cmark_with_options(events.iter().map(|e| &e.raw), &mut output, options)
        .ok()?;
    Some(output)
}

/// Parses `content` as CommonMark.
pub fn parse(content: &str) -> (r: Vec<MdEvent>)
    ensures
        raws(r@) == cmark_parse(content@),
        all_wf(r@),
{
    let mut raws_left = parse_raw(content);
    let ghost rs = raws_left@;
    let n = raws_left.len();
    let mut reversed: Vec<MdEvent> = Vec::new();
    while raws_left.len() > 0
        invariant
            raws_left@.len() + reversed@.len() == n,
            n == rs.len(),
            forall|t: int| 0 <= t < raws_left@.len() ==> raws_left@[t] == rs[t],
            forall|t: int| 0 <= t < reversed@.len() ==> (#[trigger] reversed@[t]).raw == rs[n - 1 - t]
                && reversed@[t].wf(),
        decreases raws_left@.len(),
    {
        let raw = raws_left.pop().unwrap();
        reversed.push(classify(raw));
    }
    let mut out: Vec<MdEvent> = Vec::new();
    while reversed.len() > 0
        invariant
            reversed@.len() + out@.len() == n,
            n == rs.len(),
            forall|t: int| 0 <= t < reversed@.len() ==> (#[trigger] reversed@[t]).raw == rs[n - 1 - t]
                && reversed@[t].wf(),
            forall|t: int| 0 <= t < out@.len() ==> (#[trigger] out@[t]).raw == rs[t] && out@[t].wf(),
        decreases reversed@.len(),
    {
        let e = reversed.pop().unwrap();
        out.push(e);
    }
    assert(raws(out@) =~= rs);
    out
}

/// Re-serializes `events` as CommonMark. `None` if serialization fails, so
/// the caller can fall back to the untouched input.
pub fn serialize(events: &[MdEvent]) -> (r: Option<String>)
    ensures
        opt_chars(r) == cmark_render(raws(events@)),
{
    serialize_raw(events)
}

/// Parses `content` as CommonMark and re-serializes it, with no pass in
/// between. `None` if serialization fails.
pub fn round_trip(content: &str) -> (r: Option<String>)
    ensures
        opt_chars(r) == cmark_render(cmark_parse(content@)),
{
    let events = parse(content);
    serialize(events.as_slice())
}

/// The kind after a destination is set: a link or image takes `dest`; any
/// other kind is unchanged.
pub open spec fn with_dest_kind(k: KindModel, dest: Seq<char>) -> KindModel {
    match k {
        KindModel::Link { .. } => KindModel::Link { dest },
        KindModel::Image { .. } => KindModel::Image { dest },
        _ => k,
    }
}

/// Sets the destination of a link or image event.
pub fn set_destination(e: MdEvent, dest: String) -> (r: MdEvent)
    requires
        e.wf(),
    ensures
        r.wf(),
        r.raw == event_with_dest(e.raw, dest@),
        kind_model(r.kind) == with_dest_kind(kind_model(e.kind), dest@),
{
    let raw = with_destination(e.raw, dest.as_str());
    let kind = match e.kind {
        EventKind::Link { .. } => EventKind::Link { dest },
        EventKind::Image { .. } => EventKind::Image { dest },
        other => other,
    };
    MdEvent { kind, raw }
}

/// Sets the `id` of a heading start event.
pub fn set_heading_id(e: MdEvent, id: String) -> (r: MdEvent)
    requires
        e.wf(),
        e.kind is HeadingStart,
    ensures
        r.wf(),
        r.raw == event_with_id(e.raw, id@),
        kind_model(r.kind) == (KindModel::HeadingStart { id: Some(id@) }),
{
    let raw = with_heading_id(e.raw, id.as_str());
    MdEvent { kind: EventKind::HeadingStart { id: Some(id) }, raw }
}

} // verus!
