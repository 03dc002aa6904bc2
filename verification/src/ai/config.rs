//! Configuration shared by both `ai` capabilities.

use std::time::Duration;
use vstd::prelude::*;

verus! {

/// What `Duration::from_millis` returns for `millis`.
pub uninterp spec fn duration_of_millis(millis: u64) -> Duration;

/// `Duration::from_millis`: [`duration_of_millis`] of its argument.
#[verifier::external_body]
pub(crate) fn duration_from_millis(millis: u64) -> (r: Duration)
    ensures
        r == duration_of_millis(millis),
{
    Duration::from_millis(millis)
}

/// `Duration`'s `clone`: `Duration` is `Copy`, so the clone is the same value.
pub assume_specification[ <Duration as Clone>::clone ](d: &Duration) -> (r: Duration)
    ensures
        r == *d,
;

/// Which images image understanding is meant to be called for.
///
/// Purely a signal the caller reads before deciding to call; this module
/// never inspects it.
#[non_exhaustive]
#[derive(Debug, Clone, Copy, PartialEq, Eq, Default)]
pub enum ImageScope {
    /// Every parsed image resource. The default.
    #[default]
    All,
    /// Only pages a low-confidence OCR gate already flagged as a full-page scan
    /// with no extractable text layer.
    LowConfidencePagesOnly,
}

/// Configuration for image understanding and AI-assisted refine.
///
/// Constructed with [`AiConfig::new`], then adjusted by setting the remaining
/// public fields directly.
#[non_exhaustive]
#[derive(Debug, Clone)]
pub struct AiConfig {
    /// The OpenAI-compatible endpoint's base URL (no trailing `/chat/completions`).
    pub base_url: String,
    /// Bearer token sent as `Authorization: Bearer {api_key}`.
    pub api_key: String,
    /// The model name to request.
    pub model: String,
    /// Which images a caller sends to image understanding; never read here.
    pub image_scope: ImageScope,
    /// Per-attempt timeout. Generous by default: a page dense with tables or
    /// formulas has been observed taking minutes.
    pub timeout: Duration,
    /// Maximum number of attempts (the first try plus retries) before giving
    /// up. Applies to both transport failures and a truncated response.
    pub max_retries: u32,
}

impl AiConfig {
    /// Constructs a config with the required fields and the documented
    /// defaults for everything else (`image_scope: All`, `timeout: 120s`,
    /// `max_retries: 3`).
    pub fn new(base_url: &str, api_key: &str, model: &str) -> (r: AiConfig)
        ensures
            r.base_url@ == base_url@,
            r.api_key@ == api_key@,
            r.model@ == model@,
            r.image_scope == ImageScope::All,
            r.timeout == duration_of_millis(120_000),
            r.max_retries == 3,
    {
        AiConfig {
            base_url: base_url.to_owned(),
            api_key: api_key.to_owned(),
            model: model.to_owned(),
            image_scope: ImageScope::All,
            timeout: duration_from_millis(120_000),
            max_retries: 3,
        }
    }
}

} // verus!
