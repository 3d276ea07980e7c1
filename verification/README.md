# agent-message-window

A sliding window of recent LLM conversation turns that keeps tool calls and
their results together: when the window evicts a message, it evicts every
message tied to it by a tool call, in both directions and transitively, so
what remains never holds a result without its call or a call without its
results.

- `src/json.rs` — `Json`, the JSON model the window holds, with `get`,
  `as_array`, `as_str`, `is_object` and a content-preserving `clone`.
- `src/pairing.rs` — which calls a message makes (`tool_use` blocks of its
  `content` array) and which it answers (`tool_result` blocks of its
  `content` array, and the top-level `tool_use_id` of a `role: "tool"`
  message).
- `src/eviction.rs` — the eviction rule `trim` and its implementation.
- `src/window.rs` — `MessageWindow`, its abstract state `WindowState`, and
  `Request` / `WindowState::run` describing any sequence of calls.
- `src/laws.rs` — proved properties: capacity, counting, order, oldest-first,
  pairs leaving together, no orphans, and the same over runs of calls.
- `app/lib.rs` — conversion between `serde_json::Value` and `Json`, the
  error type with `Display`/`Error`, and `serde_json` entry points.
