//! The failure reasons the two `ai` capabilities can end with.

use vstd::prelude::*;

use crate::text::{chars_of, decimal, push_chars, push_decimal, string_of};

verus! {

/// Why a call to image understanding or AI-assisted refine failed.
#[derive(Debug)]
#[non_exhaustive]
pub enum Error {
    /// The request never reached the endpoint, or the connection dropped before
    /// a response arrived: DNS, connect, TLS, or read/write failure.
    Transport(String),
    /// The endpoint responded, but with a non-success HTTP status.
    Status {
        /// The HTTP status code.
        code: u16,
        /// The response body, for diagnostics.
        body: String,
    },
    /// The response was truncated (`finish_reason == "length"`) even after
    /// every retry. Never treated as success.
    Truncated,
    /// The response body was not the shape the call expects: malformed JSON,
    /// or valid JSON that does not match the schema the prompt asked for.
    MalformedResponse(String),
    /// Every attempt failed (transport failure) up to `max_retries`.
    RetriesExhausted {
        /// How many attempts were made.
        attempts: u32,
        /// The error from the last attempt.
        last_error: Box<Error>,
    },
}

/// The text that describes a failure.
pub open spec fn message_spec(e: Error) -> Seq<char>
    decreases e,
{
    match e {
        Error::Transport(m) => "transport failure reaching the AI endpoint: "@ + m@,
        Error::Status { code, body } => "AI endpoint responded with status "@ + decimal(
            code as nat,
        ) + ": "@ + body@,
        Error::Truncated => "response was truncated (finish_reason=length) after all retries"@,
        Error::MalformedResponse(m) => "response did not match the expected schema: "@ + m@,
        Error::RetriesExhausted { attempts, last_error } => "all "@ + decimal(attempts as nat)
            + " attempt(s) failed; last error: "@ + message_spec(*last_error),
    }
}

impl Error {
    /// A transport failure with the given description.
    pub fn transport(message: String) -> (r: Error)
        ensures
            r == Error::Transport(message),
    {
        Error::Transport(message)
    }

    /// The text that describes this failure: what went wrong, with the
    /// transport's description, the status and body, the schema complaint,
    /// or the attempt count and the last attempt's failure.
    pub fn message(&self) -> (r: String)
        ensures
            r@ == message_spec(*self),
    {
        let mut out: Vec<char> = Vec::new();
        self.push_message(&mut out);
        string_of(out.as_slice())
    }

    fn push_message(&self, out: &mut Vec<char>)
        ensures
            final(out)@ == old(out)@ + message_spec(*self),
        decreases *self,
    {
        match self {
            Error::Transport(m) => {
                push_chars(out, chars_of("transport failure reaching the AI endpoint: ").as_slice());
                push_chars(out, chars_of(m.as_str()).as_slice());
            },
            Error::Status { code, body } => {
                push_chars(out, chars_of("AI endpoint responded with status ").as_slice());
                push_decimal(out, *code as u64);
                push_chars(out, chars_of(": ").as_slice());
                push_chars(out, chars_of(body.as_str()).as_slice());
            },
            Error::Truncated => {
                push_chars(
                    out,
                    chars_of("response was truncated (finish_reason=length) after all retries").as_slice(),
                );
            },
            Error::MalformedResponse(m) => {
                push_chars(out, chars_of("response did not match the expected schema: ").as_slice());
                push_chars(out, chars_of(m.as_str()).as_slice());
            },
            Error::RetriesExhausted { attempts, last_error } => {
                push_chars(out, chars_of("all ").as_slice());
                push_decimal(out, *attempts as u64);
                push_chars(out, chars_of(" attempt(s) failed; last error: ").as_slice());
                last_error.push_message(out);
            },
        }
    }
}

} // verus!
