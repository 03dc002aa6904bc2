use unparser_shared::ai::http::{
    attempt_outcome, backoff_delay, backoff_millis, chat_request, completions_url, data_uri,
    AttemptOutcome, ChatCompletionResponse, ChatMessage, Choice, ContentPart, RetryState, Step,
};
use unparser_shared::ai::image::{
    understanding_from, understanding_request, vision_message, UNDERSTANDING_PROMPT,
};
use unparser_shared::ai::refine::{refine_request, refined_markdown, system_prompt, SYSTEM_PROMPT};
use unparser_shared::ai::{
    AiConfig, ContentBlock, Error, ImageContext, ImageScope, ImageUnderstanding, RefineAiOptions,
    TableBlock, TableCellBlock,
};
use std::time::Duration;

fn config(url: &str, max_retries: u32) -> AiConfig {
    let mut cfg = AiConfig::new(url, "test-key", "test-model");
    cfg.max_retries = max_retries;
    cfg
}

fn chat_response(finish_reason: &str, content: &str) -> Result<ChatCompletionResponse, String> {
    Ok(ChatCompletionResponse {
        choices: vec![Choice {
            content: content.to_string(),
            finish_reason: Some(finish_reason.to_string()),
        }],
    })
}

/// Drives one exchange through the retry state machine with the given
/// responses, one per attempt, and returns what it ends with and the waits it
/// asked for.
fn exchange(
    cfg: &AiConfig,
    responses: Vec<(u16, Result<ChatCompletionResponse, String>)>,
) -> (Result<String, Error>, Vec<u64>) {
    let mut state = RetryState::new(cfg.max_retries);
    let mut waits = Vec::new();
    for (code, parsed) in responses {
        let outcome = attempt_outcome(code, "body".to_string(), parsed);
        match state.on_outcome(outcome) {
            Step::Retry { delay_millis } => waits.push(delay_millis),
            Step::Done(result) => return (result, waits),
        }
    }
    panic!("the exchange asked for more attempts than the responses given");
}

// ---- backoff and request shape ----

#[test]
fn backoff_doubles_and_caps() {
    assert_eq!(backoff_delay(1), Duration::from_millis(200));
    assert_eq!(backoff_delay(2), Duration::from_millis(400));
    assert_eq!(backoff_delay(3), Duration::from_millis(800));
    assert_eq!(backoff_delay(10), Duration::from_secs(5));
}

#[test]
fn backoff_reaches_its_cap_at_the_sixth_attempt() {
    assert_eq!(backoff_millis(5), 3200);
    assert_eq!(backoff_millis(6), 5000);
    assert_eq!(backoff_millis(40), 5000);
    assert_eq!(backoff_millis(u32::MAX), 5000);
}

#[test]
fn data_uri_shapes_a_base64_data_url() {
    let uri = data_uri(b"hi", "image/png");
    assert!(uri.starts_with("data:image/png;base64,"));
    assert_eq!(uri, "data:image/png;base64,aGk=");
}

#[test]
fn data_uri_of_no_bytes_has_an_empty_payload() {
    assert_eq!(data_uri(b"", "image/jpeg"), "data:image/jpeg;base64,");
    assert_eq!(data_uri(b"abc", "x"), "data:x;base64,YWJj");
}

#[test]
fn the_endpoint_drops_trailing_slashes_of_the_base_url() {
    assert_eq!(completions_url("http://h/v1"), "http://h/v1/chat/completions");
    assert_eq!(completions_url("http://h/v1//"), "http://h/v1/chat/completions");
    assert_eq!(completions_url(""), "/chat/completions");
}

#[test]
fn a_config_starts_with_the_documented_defaults() {
    let cfg = AiConfig::new("http://h", "k", "m");
    assert_eq!(cfg.base_url, "http://h");
    assert_eq!(cfg.api_key, "k");
    assert_eq!(cfg.model, "m");
    assert_eq!(cfg.image_scope, ImageScope::All);
    assert_eq!(cfg.timeout, Duration::from_secs(120));
    assert_eq!(cfg.max_retries, 3);
}

#[test]
fn json_mode_asks_for_a_json_object() {
    let cfg = config("http://h", 1);
    let with = chat_request(&cfg, vec![ChatMessage::text("user", "x".to_string())], true);
    assert_eq!(with.model, "test-model");
    assert_eq!(with.response_format.map(|f| f.kind), Some("json_object".to_string()));
    let without = chat_request(&cfg, Vec::new(), false);
    assert!(without.response_format.is_none());
}

#[test]
fn the_vision_message_wraps_the_image_in_its_context() {
    let msg = vision_message(
        b"hi",
        "image/png",
        ImageContext { preceding_text: Some("before"), following_text: Some("after") },
    );
    assert_eq!(msg.role, "user");
    assert_eq!(msg.content.len(), 3);
    match &msg.content[0] {
        ContentPart::Text { text } => assert_eq!(text, "Text immediately before the image:\nbefore"),
        _ => panic!("expected the preceding text first"),
    }
    match &msg.content[1] {
        ContentPart::ImageUrl { image_url } => assert_eq!(image_url.url, "data:image/png;base64,aGk="),
        _ => panic!("expected the image second"),
    }
    match &msg.content[2] {
        ContentPart::Text { text } => assert_eq!(text, "Text immediately after the image:\nafter"),
        _ => panic!("expected the following text last"),
    }
    let bare = vision_message(b"hi", "image/png", ImageContext::default());
    assert_eq!(bare.content.len(), 1);
}

#[test]
fn the_understanding_request_is_in_json_mode_with_the_prompt_first() {
    let req = understanding_request(&config("http://h", 3), b"x", "image/gif", ImageContext::default());
    assert_eq!(req.model, "test-model");
    assert!(req.response_format.is_some());
    assert_eq!(req.messages.len(), 2);
    assert_eq!(req.messages[0].role, "system");
    match &req.messages[0].content[0] {
        ContentPart::Text { text } => assert_eq!(text, UNDERSTANDING_PROMPT),
        _ => panic!("expected the prompt"),
    }
}

#[test]
fn the_refine_request_appends_instructions_to_the_prompt() {
    let plain = system_prompt(&RefineAiOptions::default());
    assert_eq!(plain, SYSTEM_PROMPT);
    let opts = RefineAiOptions::default().with_instructions("Keep names.");
    assert_eq!(opts.instructions.as_deref(), Some("Keep names."));
    assert_eq!(system_prompt(&opts), format!("{SYSTEM_PROMPT}\n\nKeep names."));
    let req = refine_request(&config("http://h", 1), "# md", &opts);
    assert!(req.response_format.is_none());
    assert_eq!(req.messages.len(), 2);
    assert_eq!(req.messages[1].role, "user");
    match &req.messages[1].content[0] {
        ContentPart::Text { text } => assert_eq!(text, "# md"),
        _ => panic!("expected the markdown"),
    }
}

// ---- one attempt ----

#[test]
fn a_non_success_status_fails_with_its_body() {
    match attempt_outcome(401, "{\"error\":\"invalid api key\"}".to_string(), Err("x".to_string())) {
        AttemptOutcome::Failed(Error::Status { code, body }) => {
            assert_eq!(code, 401);
            assert!(body.contains("invalid api key"));
        }
        _ => panic!("expected a status failure"),
    }
}

#[test]
fn an_unreadable_envelope_is_malformed() {
    match attempt_outcome(200, "nope".to_string(), Err("expected value".to_string())) {
        AttemptOutcome::Failed(Error::MalformedResponse(m)) => {
            assert_eq!(m, "chat completion envelope: expected value")
        }
        _ => panic!("expected a malformed response"),
    }
}

#[test]
fn an_envelope_without_choices_is_malformed() {
    match attempt_outcome(200, "{}".to_string(), Ok(ChatCompletionResponse { choices: vec![] })) {
        AttemptOutcome::Failed(Error::MalformedResponse(m)) => assert_eq!(m, "response had no choices"),
        _ => panic!("expected a malformed response"),
    }
}

#[test]
fn a_length_finish_is_a_truncation_and_anything_else_is_content() {
    assert!(matches!(attempt_outcome(200, String::new(), chat_response("length", "cut")), AttemptOutcome::Truncated));
    match attempt_outcome(204, String::new(), chat_response("stop", "done")) {
        AttemptOutcome::Content(c) => assert_eq!(c, "done"),
        _ => panic!("expected content"),
    }
    let no_reason = Ok(ChatCompletionResponse {
        choices: vec![Choice { content: "x".to_string(), finish_reason: None }],
    });
    assert!(matches!(attempt_outcome(200, String::new(), no_reason), AttemptOutcome::Content(_)));
}

// ---- the exchange ----

#[test]
fn returns_the_rewritten_markdown_trimmed() {
    let (result, _) = exchange(
        &config("http://h", 1),
        vec![(200, chat_response("stop", "\n# Cleaned Up\n\nBetter phrasing.\n"))],
    );
    assert_eq!(refined_markdown(result.expect("should succeed")), "# Cleaned Up\n\nBetter phrasing.");
}

#[test]
fn instructions_do_not_change_the_call_shape_or_the_success_path() {
    let cfg = config("http://h", 1);
    let opts = RefineAiOptions::default().with_instructions("Preserve all product names verbatim.");
    let with = refine_request(&cfg, "original", &opts);
    let without = refine_request(&cfg, "original", &RefineAiOptions::default());
    assert_eq!(with.messages.len(), without.messages.len());
    assert_eq!(with.model, without.model);
    let (result, _) = exchange(&cfg, vec![(200, chat_response("stop", "revised"))]);
    assert_eq!(refined_markdown(result.expect("should succeed")), "revised");
}

#[test]
fn a_truncated_first_attempt_recovers_on_retry() {
    let (result, waits) = exchange(
        &config("http://h", 3),
        vec![(200, chat_response("length", "cut off mid")), (200, chat_response("stop", "complete"))],
    );
    assert_eq!(refined_markdown(result.expect("second attempt should succeed")), "complete");
    assert_eq!(waits, vec![200]);
}

#[test]
fn truncated_response_retries_then_fails_as_truncated() {
    let (result, waits) = exchange(
        &config("http://h", 2),
        vec![(200, chat_response("length", "{}")), (200, chat_response("length", "{}"))],
    );
    assert!(matches!(result, Err(Error::Truncated)));
    assert_eq!(waits, vec![200]);
}

#[test]
fn truncated_then_success_recovers_on_retry() {
    let (result, _) = exchange(
        &config("http://h", 3),
        vec![(200, chat_response("length", "{}")), (200, chat_response("stop", "{\"kind\":\"description\"}"))],
    );
    let read = Ok(ImageUnderstanding::Description("recovered".into()));
    assert!(result.is_ok());
    assert_eq!(understanding_from(read).unwrap(), ImageUnderstanding::Description("recovered".into()));
}

#[test]
fn non_success_status_is_reported_with_body() {
    let mut state = RetryState::new(3);
    let outcome = attempt_outcome(401, "{\"error\":\"invalid api key\"}".to_string(), Err("x".into()));
    match state.on_outcome(outcome) {
        Step::Done(Err(Error::Status { code, body })) => {
            assert_eq!(code, 401);
            assert!(body.contains("invalid api key"));
        }
        _ => panic!("expected Error::Status"),
    }
}

#[test]
fn malformed_json_content_is_reported_distinctly() {
    let (result, _) = exchange(&config("http://h", 1), vec![(200, chat_response("stop", "not json at all"))]);
    assert_eq!(result.unwrap(), "not json at all");
    match understanding_from(Err("expected value at line 1 column 1".to_string())) {
        Err(Error::MalformedResponse(m)) => {
            assert_eq!(m, "image understanding: expected value at line 1 column 1")
        }
        other => panic!("expected a malformed response, got {other:?}"),
    }
}

#[test]
fn description_response_for_a_general_image() {
    let read = Ok(ImageUnderstanding::Description("A bar chart of quarterly revenue.".into()));
    assert_eq!(
        understanding_from(read).unwrap(),
        ImageUnderstanding::Description("A bar chart of quarterly revenue.".into())
    );
}

#[test]
fn structured_response_preserves_merged_cells() {
    let table = TableBlock::new(
        vec![
            vec![
                TableCellBlock::new("Region".into(), 1, 1),
                TableCellBlock::new("Revenue".into(), 1, 2),
            ],
            vec![
                TableCellBlock::new("APAC".into(), 1, 1),
                TableCellBlock::new("$1.2M".into(), 1, 1),
                TableCellBlock::new("+8%".into(), 1, 1),
            ],
        ],
        1,
    );
    let read = Ok(ImageUnderstanding::Structured(vec![
        ContentBlock::Paragraph("Q3 Revenue by Region".into()),
        ContentBlock::Table(table),
    ]));
    let ImageUnderstanding::Structured(blocks) = understanding_from(read).unwrap() else {
        panic!("expected Structured");
    };
    assert_eq!(blocks.len(), 2);
    assert_eq!(blocks[0], ContentBlock::Paragraph("Q3 Revenue by Region".into()));
    let ContentBlock::Table(table) = &blocks[1] else {
        panic!("expected a Table block");
    };
    assert_eq!(table.header_rows, 1);
    assert_eq!(table.rows[0][1].colspan, 2, "merged header cell must round-trip");
    assert_eq!(table.rows[1][0].text, "APAC");
}

#[test]
fn transport_failures_are_retried_then_exhausted() {
    let mut state = RetryState::new(2);
    let first = state.on_outcome(AttemptOutcome::Failed(Error::transport("reset".to_string())));
    assert!(matches!(first, Step::Retry { delay_millis: 200 }));
    match state.on_outcome(AttemptOutcome::Failed(Error::transport("reset again".to_string()))) {
        Step::Done(Err(Error::RetriesExhausted { attempts, last_error })) => {
            assert_eq!(attempts, 2);
            assert!(matches!(*last_error, Error::Transport(ref m) if m == "reset again"));
        }
        _ => panic!("expected the retries to be exhausted"),
    }
}

#[test]
fn zero_retries_still_makes_one_attempt() {
    let mut state = RetryState::new(0);
    assert_eq!(state.max_attempts, 1);
    assert!(matches!(state.on_outcome(AttemptOutcome::Truncated), Step::Done(Err(Error::Truncated))));
}

#[test]
fn the_waits_follow_the_backoff() {
    let mut state = RetryState::new(4);
    let mut waits = Vec::new();
    for _ in 0..3 {
        match state.on_outcome(AttemptOutcome::Truncated) {
            Step::Retry { delay_millis } => waits.push(delay_millis),
            Step::Done(_) => panic!("retried too little"),
        }
    }
    assert_eq!(waits, vec![200, 400, 800]);
    assert!(matches!(state.on_outcome(AttemptOutcome::Truncated), Step::Done(Err(Error::Truncated))));
}

#[test]
fn each_failure_describes_itself() {
    assert_eq!(
        Error::transport("reset".to_string()).message(),
        "transport failure reaching the AI endpoint: reset"
    );
    assert_eq!(
        Error::Status { code: 401, body: "denied".to_string() }.message(),
        "AI endpoint responded with status 401: denied"
    );
    assert_eq!(
        Error::Truncated.message(),
        "response was truncated (finish_reason=length) after all retries"
    );
    assert_eq!(
        Error::MalformedResponse("bad".to_string()).message(),
        "response did not match the expected schema: bad"
    );
    let exhausted = Error::RetriesExhausted {
        attempts: 3,
        last_error: Box::new(Error::transport("reset".to_string())),
    };
    assert_eq!(
        exhausted.message(),
        "all 3 attempt(s) failed; last error: transport failure reaching the AI endpoint: reset"
    );
    assert_eq!(Error::Status { code: 0, body: String::new() }.message(), "AI endpoint responded with status 0: ");
}
