//! The `/chat/completions` exchange shared by image understanding and
//! AI-assisted refine: request shape, response classification, retry and
//! backoff.
//!
//! # Retry policy
//!
//! Only two outcomes are retried: a transport failure (the request never got
//! a complete response) and a truncated response (`finish_reason ==
//! "length"`, never treated as success). A non-success HTTP status and a
//! malformed response body end the exchange immediately: retrying the same
//! request against a definitive server response is a second guess, which is
//! left to the caller.
//!
//! The exchange is a state machine: [`RetryState::on_outcome`] takes what one
//! attempt produced and says whether to wait and retry or what the call
//! returns. Sending the request and sleeping are the caller's.

use base64::Engine;
use vstd::prelude::*;

use crate::ai::config::AiConfig;
use crate::ai::error::Error;
use crate::text::{chars_of, push_chars, string_of};

verus! {

/// One part of a message's content: text, or an image by URL.
pub enum ContentPart {
    Text { text: String },
    ImageUrl { image_url: ImageUrlPart },
}

/// The URL of an image content part.
pub struct ImageUrlPart {
    pub url: String,
}

/// One chat message: a role and its content parts.
pub struct ChatMessage {
    pub role: String,
    pub content: Vec<ContentPart>,
}

impl ChatMessage {
    /// A message of one text part.
    pub fn text(role: &str, text: String) -> (r: ChatMessage)
        ensures
            r.role@ == role@,
            r.content@.len() == 1,
            (r.content@[0] matches ContentPart::Text { text: t } && t == text),
            message_model(r) == (role@, seq![PartModel::Text(text@)]),
    {
        let mut content = Vec::new();
        content.push(ContentPart::Text { text });
        let r = ChatMessage { role: role.to_owned(), content };
        assert(message_model(r).1 =~= seq![PartModel::Text(text@)]);
        r
    }
}

/// A content part as plain values: text, or an image URL.
pub enum PartModel {
    Text(Seq<char>),
    ImageUrl(Seq<char>),
}

/// The plain value of a content part.
pub open spec fn part_model(p: ContentPart) -> PartModel {
    match p {
        ContentPart::Text { text } => PartModel::Text(text@),
        ContentPart::ImageUrl { image_url } => PartModel::ImageUrl(image_url.url@),
    }
}

/// The plain value of a message: its role and its parts.
pub open spec fn message_model(m: ChatMessage) -> (Seq<char>, Seq<PartModel>) {
    (m.role@, m.content@.map_values(|p: ContentPart| part_model(p)))
}

/// The plain values of a list of messages.
pub open spec fn messages_model(ms: Seq<ChatMessage>) -> Seq<(Seq<char>, Seq<PartModel>)> {
    ms.map_values(|m: ChatMessage| message_model(m))
}

/// `response_format: {"type": ...}` of a request.
pub struct ResponseFormat {
    pub kind: String,
}

/// A `/chat/completions` request body.
pub struct ChatRequest {
    pub model: String,
    pub messages: Vec<ChatMessage>,
    pub response_format: Option<ResponseFormat>,
}

/// The request for `messages` under `cfg`: its model, the messages, and, in
/// JSON mode, `response_format: {"type": "json_object"}`.
pub fn chat_request(cfg: &AiConfig, messages: Vec<ChatMessage>, json_mode: bool) -> (r: ChatRequest)
    ensures
        r.model@ == cfg.model@,
        r.messages == messages,
        json_mode ==> (r.response_format matches Some(f) && f.kind@ == "json_object"@),
        !json_mode ==> r.response_format is None,
{
    let response_format = if json_mode {
        Some(ResponseFormat { kind: "json_object".to_owned() })
    } else {
        None
    };
    ChatRequest { model: cfg.model.clone(), messages, response_format }
}

/// `s` with its trailing `/` characters removed.
pub open spec fn trim_trailing_slashes(s: Seq<char>) -> Seq<char>
    decreases s.len(),
{
    if s.len() > 0 && s.last() == '/' {
        trim_trailing_slashes(s.drop_last())
    } else {
        s
    }
}

/// The endpoint a request is sent to: `{base_url}/chat/completions`, with any
/// trailing `/` of the base URL dropped first.
pub fn completions_url(base_url: &str) -> (r: String)
    ensures
        r@ == trim_trailing_slashes(base_url@) + "/chat/completions"@,
{
    let b = chars_of(base_url);
    let mut j = b.len();
    assert(b@.take(b@.len() as int) == b@);
    while j > 0 && b[j - 1] == '/'
        invariant
            0 <= j <= b@.len(),
            trim_trailing_slashes(b@) == trim_trailing_slashes(b@.take(j as int)),
        decreases j,
    {
        assert(b@.take(j as int).drop_last() == b@.take(j - 1));
        j = j - 1;
    }
    let mut out: Vec<char> = Vec::new();
    push_chars(&mut out, vstd::slice::slice_subrange(b.as_slice(), 0, j));
    let suffix = chars_of("/chat/completions");
    push_chars(&mut out, suffix.as_slice());
    assert(b@.subrange(0, j as int) == b@.take(j as int));
    string_of(out.as_slice())
}

/// The character of the standard base64 alphabet for a 6-bit value `v`:
/// `A`-`Z`, `a`-`z`, `0`-`9`, `+`, `/`.
pub open spec fn base64_char(v: int) -> char {
    if v < 26 {
        ((v + 65) as u8) as char
    } else if v < 52 {
        ((v - 26 + 97) as u8) as char
    } else if v < 62 {
        ((v - 52 + 48) as u8) as char
    } else if v == 62 {
        '+'
    } else {
        '/'
    }
}

/// Standard-alphabet base64 of `bytes`, with padding: each group of three
/// bytes becomes four characters of six bits each, and a last group of one
/// or two bytes is completed with `=`.
pub open spec fn base64_standard(bytes: Seq<u8>) -> Seq<char>
    decreases bytes.len(),
{
    if bytes.len() == 0 {
        seq![]
    } else if bytes.len() == 1 {
        let b0 = bytes[0] as int;
        seq![base64_char(b0 / 4), base64_char((b0 % 4) * 16), '=', '=']
    } else if bytes.len() == 2 {
        let b0 = bytes[0] as int;
        let b1 = bytes[1] as int;
        seq![
            base64_char(b0 / 4),
            base64_char((b0 % 4) * 16 + b1 / 16),
            base64_char((b1 % 16) * 4),
            '=',
        ]
    } else {
        let b0 = bytes[0] as int;
        let b1 = bytes[1] as int;
        let b2 = bytes[2] as int;
        seq![
            base64_char(b0 / 4),
            base64_char((b0 % 4) * 16 + b1 / 16),
            base64_char((b1 % 16) * 4 + b2 / 64),
            base64_char(b2 % 64),
        ] + base64_standard(bytes.skip(3))
    }
}

/// Whether the padded base64 length of `n` bytes fits in a `usize`
/// (`base64::encoded_len` does not overflow).
pub open spec fn base64_len_fits(n: nat) -> bool {
    (n / 3) * 4 + (if n % 3 > 0 {
        4int
    } else {
        0int
    }) <= usize::MAX
}

/// Whether `n` bytes can be base64-encoded: whether their padded encoded
/// length fits in a `usize`.
pub fn encoded_len_fits(n: usize) -> (r: bool)
    ensures
        r == base64_len_fits(n as nat),
{
    let chunks = n / 3;
    let rem = n % 3;
    if chunks > usize::MAX / 4 {
        return false;
    }
    let full = chunks * 4;
    if rem > 0 {
        full <= usize::MAX - 4
    } else {
        true
    }
}

/// `base64::engine::general_purpose::STANDARD.encode`: standard-alphabet
/// base64 with padding, [`base64_standard`] of its argument. It panics when
/// the encoded length overflows a `usize`, which the precondition rules out.
#[verifier::external_body]
fn base64_encode(bytes: &[u8]) -> (r: String)
    requires
        base64_len_fits(bytes@.len()),
    ensures
        r@ == base64_standard(bytes@),
{
    base64::engine::general_purpose::STANDARD.encode(bytes)
}

/// `data:{mime_type};base64,{encoded}`.
pub open spec fn data_uri_spec(bytes: Seq<u8>, mime_type: Seq<char>) -> Seq<char> {
    "data:"@ + mime_type + ";base64,"@ + base64_standard(bytes)
}

/// Encodes `bytes` as a `data:` URI for a vision message's image part:
/// `data:{mime_type};base64,{encoded}`.
pub fn data_uri(bytes: &[u8], mime_type: &str) -> (r: String)
    requires
        base64_len_fits(bytes@.len()),
    ensures
        r@ == data_uri_spec(bytes@, mime_type@),
{
    let encoded = base64_encode(bytes);
    let mut out = chars_of("data:");
    push_chars(&mut out, chars_of(mime_type).as_slice());
    push_chars(&mut out, chars_of(";base64,").as_slice());
    push_chars(&mut out, chars_of(encoded.as_str()).as_slice());
    string_of(out.as_slice())
}

/// 200 doubled `k` times.
pub open spec fn doubled(k: nat) -> nat
    decreases k,
{
    if k == 0 {
        200
    } else {
        2 * doubled((k - 1) as nat)
    }
}

/// The wait before retrying after attempt `attempt` (counted from 1), in
/// milliseconds: 200 ms doubling per attempt, capped at 5 s.
pub open spec fn backoff_millis_spec(attempt: nat) -> nat {
    let k: nat = if attempt >= 17 {
        16
    } else {
        (attempt - 1) as nat
    };
    if doubled(k) < 5000 {
        doubled(k)
    } else {
        5000
    }
}

/// The wait before retrying after attempt `attempt`, in milliseconds.
pub fn backoff_millis(attempt: u32) -> (r: u64)
    requires
        attempt >= 1,
    ensures
        r as nat == backoff_millis_spec(attempt as nat),
{
    let k: u32 = if attempt >= 17 {
        16
    } else {
        attempt - 1
    };
    let mut m: u64 = 200;
    let mut i: u32 = 0;
    while i < k && m < 5000
        invariant
            0 <= i <= k <= 16,
            m as nat == doubled(i as nat),
            m <= 10000,
        decreases k - i,
    {
        m = m * 2;
        i = i + 1;
    }
    proof {
        if m >= 5000 {
            lemma_doubled_monotone(i as nat, k as nat);
        }
    }
    if m < 5000 {
        m
    } else {
        5000
    }
}

/// Doubling more often never gives less.
pub proof fn lemma_doubled_monotone(i: nat, j: nat)
    requires
        i <= j,
    ensures
        doubled(i) <= doubled(j),
    decreases j - i,
{
    if i < j {
        lemma_doubled_monotone(i, (j - 1) as nat);
    }
}

/// Exponential backoff starting at 200 ms, doubling per attempt, capped at 5 s.
pub fn backoff_delay(attempt: u32) -> (r: std::time::Duration)
    requires
        attempt >= 1,
    ensures
        r == crate::ai::config::duration_of_millis(backoff_millis_spec(attempt as nat) as u64),
{
    crate::ai::config::duration_from_millis(backoff_millis(attempt))
}

/// One choice of a chat completion response: the assistant message's content
/// (empty when the response carried none) and the finish reason, if any.
pub struct Choice {
    pub content: String,
    pub finish_reason: Option<String>,
}

/// A chat completion response body, as far as this exchange reads it.
pub struct ChatCompletionResponse {
    pub choices: Vec<Choice>,
}

/// What one attempt produced: the assistant message's content, a truncated
/// response, or a failure.
pub enum AttemptOutcome {
    Content(String),
    Truncated,
    Failed(Error),
}

/// Whether an HTTP status code is a success (2xx).
pub open spec fn is_success(code: u16) -> bool {
    200 <= code <= 299
}

/// Whether a choice was cut off (`finish_reason == "length"`).
pub open spec fn is_truncated(c: Choice) -> bool {
    c.finish_reason matches Some(r) && r@ == "length"@
}

/// The message of a response body that is not a chat completion.
pub open spec fn envelope_error(reason: Seq<char>) -> Seq<char> {
    "chat completion envelope: "@ + reason
}

/// The message of a chat completion with no choices.
pub open spec fn no_choices_error() -> Seq<char> {
    "response had no choices"@
}

/// Whether `e` is a malformed-response failure with message `m`.
pub open spec fn is_malformed(e: Error, m: Seq<char>) -> bool {
    e matches Error::MalformedResponse(msg) && msg@ == m
}

/// Builds a string from the characters of `a` followed by those of `b`.
fn joined(a: &str, b: &str) -> (r: String)
    ensures
        r@ == a@ + b@,
{
    let mut out = chars_of(a);
    push_chars(&mut out, chars_of(b).as_slice());
    string_of(out.as_slice())
}

/// Whether a finish reason is `length`.
fn finish_is_length(reason: &Option<String>) -> (r: bool)
    ensures
        r == (reason matches Some(x) && x@ == "length"@),
{
    match reason {
        Some(x) => {
            let a = chars_of(x.as_str());
            let b = chars_of("length");
            crate::text::chars_eq(a.as_slice(), b.as_slice())
        },
        None => false,
    }
}

/// What an attempt produced, from the response's status code, its body, and
/// the body read as a chat completion (or the reader's complaint): a
/// non-success status fails with that status and body; a body that is not a
/// chat completion, or one with no choices, is a malformed response; a first
/// choice cut off by length is a truncation; otherwise the first choice's
/// content.
pub fn attempt_outcome(
    code: u16,
    body: String,
    parsed: Result<ChatCompletionResponse, String>,
) -> (r: AttemptOutcome)
    ensures
        !is_success(code) ==> r == AttemptOutcome::Failed(Error::Status { code, body }),
        is_success(code) ==> match parsed {
            Err(reason) => r matches AttemptOutcome::Failed(e) && is_malformed(
                e,
                envelope_error(reason@),
            ),
            Ok(resp) => if resp.choices@.len() == 0 {
                r matches AttemptOutcome::Failed(e) && is_malformed(e, no_choices_error())
            } else if is_truncated(resp.choices@[0]) {
                r is Truncated
            } else {
                r == AttemptOutcome::Content(resp.choices@[0].content)
            },
        },
{
    if !(200 <= code && code <= 299) {
        return AttemptOutcome::Failed(Error::Status { code, body });
    }
    match parsed {
        Err(reason) => AttemptOutcome::Failed(
            Error::MalformedResponse(joined("chat completion envelope: ", reason.as_str())),
        ),
        Ok(resp) => {
            let mut choices = resp.choices;
            if choices.len() == 0 {
                AttemptOutcome::Failed(
                    Error::MalformedResponse("response had no choices".to_owned()),
                )
            } else {
                let first = choices.remove(0);
                if finish_is_length(&first.finish_reason) {
                    AttemptOutcome::Truncated
                } else {
                    AttemptOutcome::Content(first.content)
                }
            }
        },
    }
}

/// What the exchange does after an attempt: wait `delay_millis` and send the
/// same request again, or end with the given result.
pub enum Step {
    Retry { delay_millis: u64 },
    Done(Result<String, Error>),
}

/// Where an exchange stands: how many attempts it may make in all, and which
/// attempt (counted from 1) is under way.
pub struct RetryState {
    pub max_attempts: u32,
    pub attempt: u32,
}

/// The number of attempts an exchange makes at most: `max_retries`, and at
/// least one.
pub open spec fn max_attempts_spec(max_retries: u32) -> u32 {
    if max_retries == 0 {
        1
    } else {
        max_retries
    }
}

/// The decision after attempt `s.attempt` produced `outcome`, and the state
/// the exchange is in afterwards.
///
/// Content ends the exchange with it. A truncation or a transport failure
/// is retried after the backoff while attempts remain; on the last attempt a
/// truncation ends as [`Error::Truncated`] and a transport failure as
/// [`Error::RetriesExhausted`] holding it. Any other failure ends the
/// exchange with that failure at once.
pub open spec fn step_spec(s: RetryState, outcome: AttemptOutcome) -> (RetryState, Step) {
    let last = s.attempt >= s.max_attempts;
    let retry = (
        RetryState { max_attempts: s.max_attempts, attempt: (s.attempt + 1) as u32 },
        Step::Retry { delay_millis: backoff_millis_spec(s.attempt as nat) as u64 },
    );
    match outcome {
        AttemptOutcome::Content(text) => (s, Step::Done(Ok(text))),
        AttemptOutcome::Truncated => if last {
            (s, Step::Done(Err(Error::Truncated)))
        } else {
            retry
        },
        AttemptOutcome::Failed(e) => match e {
            Error::Transport(reason) => if last {
                (
                    s,
                    Step::Done(
                        Err(
                            Error::RetriesExhausted {
                                attempts: s.max_attempts,
                                last_error: Box::new(Error::Transport(reason)),
                            },
                        ),
                    ),
                )
            } else {
                retry
            },
            _ => (s, Step::Done(Err(e))),
        },
    }
}

impl RetryState {
    /// Whether the attempt under way is one the exchange may make.
    pub open spec fn wf(self) -> bool {
        1 <= self.attempt <= self.max_attempts
    }

    /// The state before the first attempt of an exchange allowed
    /// `max_retries` attempts (at least one).
    pub fn new(max_retries: u32) -> (r: RetryState)
        ensures
            r.wf(),
            r.attempt == 1,
            r.max_attempts == max_attempts_spec(max_retries),
    {
        let max_attempts = if max_retries == 0 {
            1
        } else {
            max_retries
        };
        RetryState { max_attempts, attempt: 1 }
    }

    /// Takes what the attempt under way produced and says what to do next,
    /// moving on to the next attempt when it says to retry.
    pub fn on_outcome(&mut self, outcome: AttemptOutcome) -> (step: Step)
        requires
            old(self).wf(),
        ensures
            final(self).wf(),
            step_spec(*old(self), outcome) == (*final(self), step),
    {
        let last = self.attempt >= self.max_attempts;
        match outcome {
            AttemptOutcome::Content(text) => Step::Done(Ok(text)),
            AttemptOutcome::Truncated => {
                if last {
                    Step::Done(Err(Error::Truncated))
                } else {
                    let delay_millis = backoff_millis(self.attempt);
                    self.attempt = self.attempt + 1;
                    Step::Retry { delay_millis }
                }
            },
            AttemptOutcome::Failed(e) => match e {
                Error::Transport(reason) => {
                    if last {
                        Step::Done(
                            Err(
                                Error::RetriesExhausted {
                                    attempts: self.max_attempts,
                                    last_error: Box::new(Error::Transport(reason)),
                                },
                            ),
                        )
                    } else {
                        let delay_millis = backoff_millis(self.attempt);
                        self.attempt = self.attempt + 1;
                        Step::Retry { delay_millis }
                    }
                },
                other => Step::Done(Err(other)),
            },
        }
    }
}

/// What an exchange in state `s` ends with when its attempts produce
/// `outcomes` in turn, or `None` when it is still retrying after them.
pub open spec fn run(s: RetryState, outcomes: Seq<AttemptOutcome>) -> Option<Result<String, Error>>
    decreases outcomes.len(),
{
    if outcomes.len() == 0 {
        None
    } else {
        let (next, step) = step_spec(s, outcomes[0]);
        match step {
            Step::Done(result) => Some(result),
            Step::Retry { .. } => run(next, outcomes.drop_first()),
        }
    }
}

/// An exchange never makes more attempts than it is allowed: whatever its
/// attempts produce, it has ended by its last one.
pub proof fn lemma_exchange_ends_by_last_attempt(s: RetryState, outcomes: Seq<AttemptOutcome>)
    requires
        s.wf(),
        outcomes.len() >= s.max_attempts - s.attempt + 1,
    ensures
        run(s, outcomes) is Some,
    decreases outcomes.len(),
{
    let (next, step) = step_spec(s, outcomes[0]);
    if step is Retry {
        lemma_exchange_ends_by_last_attempt(next, outcomes.drop_first());
    }
}

/// A retry is only ever decided while attempts remain; it moves the exchange
/// to the next attempt and waits the backoff of the attempt that just ended.
pub proof fn lemma_retry_advances(s: RetryState, outcome: AttemptOutcome)
    requires
        s.wf(),
        step_spec(s, outcome).1 is Retry,
    ensures
        s.attempt < s.max_attempts,
        step_spec(s, outcome).0.attempt == s.attempt + 1,
        step_spec(s, outcome).0.max_attempts == s.max_attempts,
        step_spec(s, outcome).1 == (Step::Retry { delay_millis: backoff_millis_spec(s.attempt as nat) as u64 }),
{
}

/// Only a truncation or a transport failure is retried: content ends the
/// exchange with that content, and any other failure ends it with that very
/// failure, on whichever attempt it comes. A truncation never ends it with
/// success.
pub proof fn lemma_only_transient_outcomes_retry(s: RetryState, outcome: AttemptOutcome)
    requires
        s.wf(),
    ensures
        outcome matches AttemptOutcome::Content(text) ==> step_spec(s, outcome).1 == Step::Done(Ok(text)),
        outcome matches AttemptOutcome::Failed(e) ==> (e is Transport || step_spec(s, outcome).1
            == Step::Done(Err(e))),
        (step_spec(s, outcome).1 is Retry) ==> (outcome is Truncated || (outcome matches AttemptOutcome::Failed(e) && e is Transport)),
        outcome is Truncated ==> !(step_spec(s, outcome).1 matches Step::Done(Ok(_))),
{
}

/// The backoff starts at 200 ms, doubles with each attempt, and never
/// exceeds 5 s.
pub proof fn lemma_backoff_doubles_and_caps(attempt: nat)
    requires
        attempt >= 1,
    ensures
        backoff_millis_spec(1) == 200,
        backoff_millis_spec(attempt) <= 5000,
        backoff_millis_spec(attempt + 1) == (if 2 * backoff_millis_spec(attempt) < 5000 {
            2 * backoff_millis_spec(attempt)
        } else {
            5000
        }),
{
    reveal_with_fuel(doubled, 6);
    assert(doubled(5) == 6400);
    if attempt >= 6 {
        lemma_doubled_monotone(5, (attempt - 1) as nat);
        if attempt < 17 {
            lemma_doubled_monotone(5, attempt as nat);
        } else {
            lemma_doubled_monotone(5, 16);
        }
    }
}

} // verus!
