//! The public window API exercised the way a consumer would, including the
//! no-orphan invariant that the window exists to keep.

use agent_message_window::{Json, MessageWindow};
use std::collections::HashSet;

fn text(t: &str) -> Json {
    Json::String(t.to_string())
}

fn object(members: Vec<(&str, Json)>) -> Json {
    Json::Object(members.into_iter().map(|(k, v)| (k.to_string(), v)).collect())
}

fn user(content: &str) -> Json {
    object(vec![("role", text("user")), ("content", text(content))])
}

fn tool_use(id: &str) -> Json {
    object(vec![
        ("role", text("assistant")),
        (
            "content",
            Json::Array(vec![object(vec![
                ("type", text("tool_use")),
                ("id", text(id)),
                ("name", text("search")),
                ("input", object(vec![])),
            ])]),
        ),
    ])
}

/// Anthropic content-block form of a tool result.
fn tool_result_block(id: &str) -> Json {
    object(vec![
        ("role", text("user")),
        (
            "content",
            Json::Array(vec![object(vec![
                ("type", text("tool_result")),
                ("tool_use_id", text(id)),
                ("content", text("ok")),
            ])]),
        ),
    ])
}

/// OpenAI-style flat form: a top-level `role: "tool"` message.
fn tool_result_flat(id: &str) -> Json {
    object(vec![
        ("role", text("tool")),
        ("tool_use_id", text(id)),
        ("content", text("ok")),
    ])
}

fn str_of(v: Option<&Json>) -> Option<&str> {
    v.and_then(|v| v.as_str())
}

/// Every `tool_use` id present in the window.
fn use_ids(msgs: &[&Json]) -> HashSet<String> {
    let mut out = HashSet::new();
    for m in msgs {
        if let Some(arr) = m.get("content").and_then(|v| v.as_array()) {
            for b in arr {
                if str_of(b.get("type")) == Some("tool_use") {
                    if let Some(id) = str_of(b.get("id")) {
                        out.insert(id.to_string());
                    }
                }
            }
        }
    }
    out
}

/// Every `tool_use_id` referenced by a tool result (either form).
fn result_ids(msgs: &[&Json]) -> HashSet<String> {
    let mut out = HashSet::new();
    for m in msgs {
        if str_of(m.get("role")) == Some("tool") {
            if let Some(id) = str_of(m.get("tool_use_id")) {
                out.insert(id.to_string());
            }
        }
        if let Some(arr) = m.get("content").and_then(|v| v.as_array()) {
            for b in arr {
                if str_of(b.get("type")) == Some("tool_result") {
                    if let Some(id) = str_of(b.get("tool_use_id")) {
                        out.insert(id.to_string());
                    }
                }
            }
        }
    }
    out
}

/// The core invariant: every tool_result in the window has its tool_use present.
fn assert_no_orphans(msgs: &[&Json]) {
    let uses = use_ids(msgs);
    for r in result_ids(msgs) {
        assert!(
            uses.contains(&r),
            "orphan tool_result for id {r:?} left in window: {msgs:?}"
        );
    }
}

#[test]
fn evicting_tool_use_co_evicts_anthropic_result() {
    let mut win = MessageWindow::new(3, true);
    win.push(tool_use("u1"));
    win.push(tool_result_block("u1"));
    win.push(user("next"));
    win.push(user("again"));

    assert_eq!(win.len(), 2);
    assert_no_orphans(&win.messages());
    assert_eq!(win.messages()[0].get("content"), Some(&text("next")));
    assert_eq!(win.messages()[1].get("content"), Some(&text("again")));
}

#[test]
fn evicting_tool_use_co_evicts_flat_openai_result() {
    let mut win = MessageWindow::new(3, true);
    win.push(tool_use("u9"));
    win.push(tool_result_flat("u9"));
    win.push(user("next"));
    win.push(user("again"));

    assert_eq!(win.len(), 2);
    assert_no_orphans(&win.messages());
}

#[test]
fn many_interleaved_pairs_never_orphan() {
    for cap in 1..=8 {
        let mut win = MessageWindow::new(cap, true);
        for i in 0..40u32 {
            match i % 3 {
                0 => win.push(tool_use(&format!("id{i}"))),
                1 => win.push(tool_result_block(&format!("id{}", i - 1))),
                _ => win.push(user(&format!("plain{i}"))),
            }
            assert!(
                win.len() <= cap,
                "window exceeded cap {cap} (len {})",
                win.len()
            );
            assert_no_orphans(&win.messages());
        }
    }
}

#[test]
fn reset_then_trim_keeps_invariant() {
    let mut win = MessageWindow::new(2, true);
    win.reset(vec![
        tool_use("r1"),
        tool_result_block("r1"),
        user("a"),
        user("b"),
        user("c"),
    ]);
    assert_eq!(win.len(), 2);
    assert_no_orphans(&win.messages());
    assert_eq!(win.messages()[0].get("content"), Some(&text("b")));
    assert_eq!(win.messages()[1].get("content"), Some(&text("c")));
}

#[test]
fn clear_resets_window() {
    let mut win = MessageWindow::new(5, true);
    win.push(user("a"));
    win.push(user("b"));
    assert!(!win.is_empty());
    win.clear();
    assert!(win.is_empty());
    assert_eq!(win.len(), 0);
}

#[test]
fn zero_cap_is_clamped_to_one() {
    let mut win = MessageWindow::new(0, true);
    win.push(user("a"));
    win.push(user("b"));
    assert_eq!(win.len(), 1);
    assert_eq!(win.messages()[0].get("content"), Some(&text("b")));
}

#[test]
fn unpaired_messages_evict_oldest_first() {
    let mut win = MessageWindow::new(3, true);
    for i in 0..6u32 {
        win.push(user(&i.to_string()));
    }
    assert_eq!(win.len(), 3);
    assert_eq!(win.messages()[0].get("content"), Some(&text("3")));
    assert_eq!(win.messages()[2].get("content"), Some(&text("5")));
}
