//! AI-assisted markdown refine: a generative rewrite pass, distinct from the
//! crate's rule-based [`crate::refine`].
//!
//! Unlike that module, this one does not guarantee losslessness or
//! idempotence: a generative rewrite cannot honor either by construction. It
//! is a separate opt-in stage meant to run after rule-based refine, never a
//! replacement for it.

use vstd::prelude::*;

use crate::ai::config::AiConfig;
use crate::ai::http::{chat_request, messages_model, ChatMessage, ChatRequest, PartModel};
use crate::text::{chars_of, push_chars, string_of, trim, trim_slice};

verus! {

/// Options for AI-assisted refine.
#[non_exhaustive]
#[derive(Debug, Clone, Default)]
pub struct RefineAiOptions {
    /// Extra guidance appended to the system prompt (e.g. domain-specific
    /// terminology to preserve). Empty by default.
    pub instructions: Option<String>,
}

impl RefineAiOptions {
    /// Sets [`Self::instructions`]: `#[non_exhaustive]` blocks struct-literal
    /// construction from outside this crate, so this is how a caller sets it.
    pub fn with_instructions(self, instructions: &str) -> (r: RefineAiOptions)
        ensures
            (r.instructions matches Some(i) && i@ == instructions@),
    {
        let mut options = self;
        options.instructions = Some(instructions.to_owned());
        options
    }
}

/// The instructions the model is given with the markdown.
pub const SYSTEM_PROMPT: &'static str = "You clean up Markdown produced by an automated document \
converter. Fix awkward phrasing, spacing, and structure that a human editor would \
fix, without changing the document's meaning, adding information, or removing any \
content. Respond with the revised Markdown only \u{2014} no commentary, no code fence \
around the whole response.";

/// The system prompt under `options`: [`SYSTEM_PROMPT`], followed by a blank
/// line and the extra instructions when there are some.
pub open spec fn system_prompt_spec(instructions: Option<String>) -> Seq<char> {
    match instructions {
        Some(extra) => SYSTEM_PROMPT@ + "\n\n"@ + extra@,
        None => SYSTEM_PROMPT@,
    }
}

/// The system prompt under `options`.
pub fn system_prompt(options: &RefineAiOptions) -> (r: String)
    ensures
        r@ == system_prompt_spec(options.instructions),
{
    match &options.instructions {
        Some(extra) => {
            let mut out = chars_of(SYSTEM_PROMPT);
            push_chars(&mut out, chars_of("\n\n").as_slice());
            push_chars(&mut out, chars_of(extra.as_str()).as_slice());
            string_of(out.as_slice())
        },
        None => SYSTEM_PROMPT.to_owned(),
    }
}

/// The request that asks for `markdown` to be rewritten: the system prompt
/// under `options`, then the markdown as the user message, not in JSON mode.
pub fn refine_request(cfg: &AiConfig, markdown: &str, options: &RefineAiOptions) -> (r: ChatRequest)
    ensures
        r.model@ == cfg.model@,
        r.response_format is None,
        messages_model(r.messages@) == seq![
            ("system"@, seq![PartModel::Text(system_prompt_spec(options.instructions))]),
            ("user"@, seq![PartModel::Text(markdown@)]),
        ],
{
    let mut messages: Vec<ChatMessage> = Vec::new();
    messages.push(ChatMessage::text("system", system_prompt(options)));
    messages.push(ChatMessage::text("user", markdown.to_owned()));
    let r = chat_request(cfg, messages, false);
    assert(messages_model(r.messages@) =~= seq![
        ("system"@, seq![PartModel::Text(system_prompt_spec(options.instructions))]),
        ("user"@, seq![PartModel::Text(markdown@)]),
    ]);
    r
}

/// The rewritten markdown from the model's answer: the answer verbatim,
/// trimmed of leading and trailing whitespace.
pub fn refined_markdown(content: String) -> (r: String)
    ensures
        r@ == trim(content@),
{
    let chars = chars_of(content.as_str());
    string_of(trim_slice(chars.as_slice()))
}

} // verus!
