//! VLM-based image understanding and AI-assisted markdown refine: the
//! requests, prompts and retry decisions of both capabilities. Neither
//! touches the network by itself; a caller that sends the requests drives the
//! retry state machine in [`http`] with each attempt's outcome.

pub mod config;
pub mod error;
pub mod http;
pub mod image;
pub mod refine;

pub use config::{AiConfig, ImageScope};
pub use error::Error;
pub use image::{ContentBlock, ImageContext, ImageUnderstanding, TableBlock, TableCellBlock};
pub use refine::RefineAiOptions;
