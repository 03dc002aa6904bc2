//! VLM-based image understanding: a single call that judges whether an image
//! is a text/table document scan (structured extraction) or a general image
//! (a context-aware description), and returns the matching branch.
//!
//! The request is built here; reading the model's JSON answer into an
//! [`ImageUnderstanding`] is the caller's, and [`understanding_from`] turns
//! what it read into the capability's result.

use vstd::prelude::*;

use crate::ai::config::AiConfig;
use crate::ai::error::Error;
use crate::ai::http::{
    base64_len_fits, chat_request, data_uri, data_uri_spec, message_model, messages_model,
    ChatMessage, ChatRequest, ContentPart, ImageUrlPart, PartModel,
};
use crate::text::{chars_of, push_chars, string_of};

verus! {

/// Text surrounding the image, for the description branch: a caption-less
/// photo described as "a bar chart" is far less useful than one described
/// with the surrounding paragraph's subject folded in.
///
/// Both fields are optional and independent: a page boundary may have
/// preceding text but no following text, or the other way round.
#[derive(Debug, Clone, Copy, Default)]
pub struct ImageContext<'a> {
    /// Text immediately before the image.
    pub preceding_text: Option<&'a str>,
    /// Text immediately after the image.
    pub following_text: Option<&'a str>,
}

/// What image understanding judged the image to be.
#[derive(Debug, Clone, PartialEq)]
#[non_exhaustive]
pub enum ImageUnderstanding {
    /// Judged a text/table document scan: structured extraction.
    Structured(Vec<ContentBlock>),
    /// Judged a general image (photo, chart, diagram): a description.
    Description(String),
}

/// One block of content extracted from a structured image.
#[derive(Debug, Clone, PartialEq)]
#[non_exhaustive]
pub enum ContentBlock {
    /// A paragraph of text.
    Paragraph(String),
    /// A table, with merged-cell structure preserved.
    Table(TableBlock),
}

/// A table extracted from a structured image.
#[derive(Debug, Clone, PartialEq)]
#[non_exhaustive]
pub struct TableBlock {
    /// Rows of cells, in document order.
    pub rows: Vec<Vec<TableCellBlock>>,
    /// How many leading rows are header rows.
    pub header_rows: u8,
}

/// One cell of a [`TableBlock`].
#[derive(Debug, Clone, PartialEq)]
#[non_exhaustive]
pub struct TableCellBlock {
    /// The cell's text.
    pub text: String,
    /// How many rows this cell spans.
    pub rowspan: u8,
    /// How many columns this cell spans.
    pub colspan: u8,
}

impl TableCellBlock {
    /// A cell with the given text and spans.
    pub fn new(text: String, rowspan: u8, colspan: u8) -> (r: TableCellBlock)
        ensures
            r.text == text,
            r.rowspan == rowspan,
            r.colspan == colspan,
    {
        TableCellBlock { text, rowspan, colspan }
    }
}

impl TableBlock {
    /// A table with the given rows and header row count.
    pub fn new(rows: Vec<Vec<TableCellBlock>>, header_rows: u8) -> (r: TableBlock)
        ensures
            r.rows == rows,
            r.header_rows == header_rows,
    {
        TableBlock { rows, header_rows }
    }
}

/// The instructions the model is given with the image.
pub const UNDERSTANDING_PROMPT: &'static str = "You are given one image. First decide: is it primarily a scan of a \
     text or table document, or a general image (a photo, chart, or \
     diagram)? Then respond with exactly one JSON object and nothing else.\n\n\
     If it is a document scan, respond with:\n\
     {\"kind\":\"structured\",\"blocks\":[\n\
       {\"type\":\"paragraph\",\"text\":\"...\"},\n\
       {\"type\":\"table\",\"header_rows\":1,\"rows\":[[{\"text\":\"...\",\
     \"rowspan\":1,\"colspan\":1}]]}\n\
     ]}\n\
     Preserve reading order, heading levels as plain text, and \u{2014} this is the \
     point of asking for JSON instead of markdown \u{2014} every merged cell's true \
     rowspan/colspan.\n\n\
     If it is a general image, respond with:\n\
     {\"kind\":\"description\",\"text\":\"...\"}\n\
     Write the description using the surrounding text as context where it \
     helps identify what the image shows.";

/// The label before the text that precedes the image.
pub open spec fn preceding_label() -> Seq<char> {
    "Text immediately before the image:\n"@
}

/// The label before the text that follows the image.
pub open spec fn following_label() -> Seq<char> {
    "Text immediately after the image:\n"@
}

/// The plain value of an optional borrowed string.
pub open spec fn opt_text(o: Option<&str>) -> Option<Seq<char>> {
    match o {
        Some(t) => Some(t@),
        None => None,
    }
}

/// The parts of the vision message: the preceding text (labelled) when
/// there is some, the image as a `data:` URI, and the following text
/// (labelled) when there is some.
pub open spec fn vision_parts(
    image: Seq<u8>,
    mime_type: Seq<char>,
    preceding: Option<Seq<char>>,
    following: Option<Seq<char>>,
) -> Seq<PartModel> {
    (match preceding {
        Some(p) => seq![PartModel::Text(preceding_label() + p)],
        None => Seq::empty(),
    }) + seq![PartModel::ImageUrl(data_uri_spec(image, mime_type))] + (match following {
        Some(f) => seq![PartModel::Text(following_label() + f)],
        None => Seq::empty(),
    })
}

/// `label` followed by `text`, as a string.
fn labelled(label: &str, text: &str) -> (r: String)
    ensures
        r@ == label@ + text@,
{
    let mut out = chars_of(label);
    push_chars(&mut out, chars_of(text).as_slice());
    string_of(out.as_slice())
}

/// The user message that carries the image and its surrounding text.
pub fn vision_message(image: &[u8], mime_type: &str, context: ImageContext) -> (r: ChatMessage)
    requires
        base64_len_fits(image@.len()),
    ensures
        message_model(r) == ("user"@, vision_parts(
            image@,
            mime_type@,
            opt_text(context.preceding_text),
            opt_text(context.following_text),
        )),
{
    let mut parts: Vec<ContentPart> = Vec::new();
    if let Some(preceding) = context.preceding_text {
        parts.push(ContentPart::Text { text: labelled("Text immediately before the image:\n", preceding) });
    }
    parts.push(ContentPart::ImageUrl { image_url: ImageUrlPart { url: data_uri(image, mime_type) } });
    if let Some(following) = context.following_text {
        parts.push(ContentPart::Text { text: labelled("Text immediately after the image:\n", following) });
    }
    let r = ChatMessage { role: "user".to_owned(), content: parts };
    proof {
        assert(message_model(r).1 =~= vision_parts(
            image@,
            mime_type@,
            opt_text(context.preceding_text),
            opt_text(context.following_text),
        ));
    }
    r
}

/// The request that asks for an image to be understood: in JSON mode, the
/// instructions as the system message, then the vision message.
pub fn understanding_request(cfg: &AiConfig, image: &[u8], mime_type: &str, context: ImageContext) -> (r: ChatRequest)
    requires
        base64_len_fits(image@.len()),
    ensures
        r.model@ == cfg.model@,
        (r.response_format matches Some(f) && f.kind@ == "json_object"@),
        messages_model(r.messages@) == seq![
            ("system"@, seq![PartModel::Text(UNDERSTANDING_PROMPT@)]),
            ("user"@, vision_parts(
                image@,
                mime_type@,
                opt_text(context.preceding_text),
                opt_text(context.following_text),
            )),
        ],
{
    let mut messages: Vec<ChatMessage> = Vec::new();
    messages.push(ChatMessage::text("system", UNDERSTANDING_PROMPT.to_owned()));
    messages.push(vision_message(image, mime_type, context));
    let r = chat_request(cfg, messages, true);
    assert(messages_model(r.messages@) =~= seq![
        ("system"@, seq![PartModel::Text(UNDERSTANDING_PROMPT@)]),
        ("user"@, vision_parts(
            image@,
            mime_type@,
            opt_text(context.preceding_text),
            opt_text(context.following_text),
        )),
    ]);
    r
}

/// The message of an answer that is not the JSON object asked for.
pub open spec fn understanding_error(reason: Seq<char>) -> Seq<char> {
    "image understanding: "@ + reason
}

/// The result of image understanding, from the model's answer as read by
/// the caller: what was read, or a malformed response naming why it could
/// not be read.
pub fn understanding_from(read: Result<ImageUnderstanding, String>) -> (r: Result<ImageUnderstanding, Error>)
    ensures
        read matches Ok(u) ==> r == Ok::<ImageUnderstanding, Error>(u),
        read matches Err(reason) ==> (r matches Err(Error::MalformedResponse(m)) && m@
            == understanding_error(reason@)),
{
    match read {
        Ok(u) => Ok(u),
        Err(reason) => Err(Error::MalformedResponse(labelled("image understanding: ", reason.as_str()))),
    }
}

} // verus!
