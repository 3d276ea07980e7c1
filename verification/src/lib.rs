//! Sliding window of recent LLM conversation turns with paired protection:
//! when the window evicts a message, it evicts with it every message tied to
//! it by a tool call (`tool_use` / `tool_result` blocks, or the flat
//! `role: "tool"` form), in both directions, so the window never holds a
//! result whose call is gone nor a call whose result is gone.
//!
//! Messages are JSON documents, modelled by [`json::Json`]; [`pairing`]
//! reads the tool calls out of them, [`eviction`] is the eviction rule,
//! [`window`] holds the window, and [`laws`] states what every eviction and
//! every run of calls keeps true.

pub mod eviction;
pub mod json;
pub mod laws;
pub mod pairing;
pub mod window;

pub use json::Json;
pub use window::{MessageWindow, WindowError};
