use agent_message_window::{Json, MessageWindow, WindowError};

fn text(t: &str) -> Json {
    Json::String(t.to_string())
}

fn object(members: Vec<(&str, Json)>) -> Json {
    Json::Object(members.into_iter().map(|(k, v)| (k.to_string(), v)).collect())
}

fn user(t: &str) -> Json {
    object(vec![("role", text("user")), ("content", text(t))])
}

fn assistant(t: &str) -> Json {
    object(vec![("role", text("assistant")), ("content", text(t))])
}

fn tool_use_block(id: &str, name: &str) -> Json {
    object(vec![
        ("type", text("tool_use")),
        ("id", text(id)),
        ("name", text(name)),
        ("input", object(vec![])),
    ])
}

fn tool_use_msg(id: &str, name: &str) -> Json {
    object(vec![
        ("role", text("assistant")),
        ("content", Json::Array(vec![tool_use_block(id, name)])),
    ])
}

fn tool_result_msg(tool_use_id: &str) -> Json {
    object(vec![
        ("role", text("user")),
        (
            "content",
            Json::Array(vec![object(vec![
                ("type", text("tool_result")),
                ("tool_use_id", text(tool_use_id)),
                ("content", text("ok")),
            ])]),
        ),
    ])
}

fn has_tool_result_block(m: &Json) -> bool {
    match m.get("content").and_then(|c| c.as_array()) {
        Some(blocks) => blocks.iter().any(|b| b.get("type") == Some(&text("tool_result"))),
        None => false,
    }
}

#[test]
fn basic_sliding_window() {
    let mut win = MessageWindow::new(3, false);
    win.add(user("a")).unwrap();
    win.add(user("b")).unwrap();
    win.add(user("c")).unwrap();
    win.add(user("d")).unwrap();
    assert_eq!(win.len(), 3);
    assert_eq!(win.evicted_count(), 1);
    assert_eq!(win.messages()[0].get("content"), Some(&text("b")));
}

#[test]
fn no_overflow_within_cap() {
    let mut win = MessageWindow::new(5, true);
    for i in 0..5 {
        win.add(user(&i.to_string())).unwrap();
    }
    assert_eq!(win.len(), 5);
    assert_eq!(win.evicted_count(), 0);
}

#[test]
fn paired_protect_drops_orphan_tool_result() {
    let mut win = MessageWindow::new(2, true);
    win.add(tool_use_msg("u1", "search")).unwrap();
    win.add(tool_result_msg("u1")).unwrap();
    win.add(user("follow-up")).unwrap();
    win.add(assistant("done")).unwrap();
    assert_eq!(win.len(), 2);
    assert!(win.messages().iter().all(|m| !has_tool_result_block(m)));
}

#[test]
fn paired_protect_off_leaves_orphan() {
    let mut win = MessageWindow::new(2, false);
    win.add(tool_use_msg("u1", "search")).unwrap();
    win.add(tool_result_msg("u1")).unwrap();
    win.add(user("next")).unwrap();
    win.add(assistant("done")).unwrap();
    assert_eq!(win.len(), 2);
}

#[test]
fn clear_resets_all() {
    let mut win = MessageWindow::new(3, true);
    win.add(user("a")).unwrap();
    win.add(user("b")).unwrap();
    win.clear();
    assert_eq!(win.len(), 0);
    assert_eq!(win.evicted_count(), 0);
}

#[test]
fn extend_adds_in_order() {
    let mut win = MessageWindow::new(5, true);
    win.extend(vec![user("a"), user("b"), user("c")]).unwrap();
    assert_eq!(win.len(), 3);
    assert_eq!(win.messages()[1].get("content"), Some(&text("b")));
}

#[test]
fn not_object_error() {
    let mut win = MessageWindow::new(3, true);
    let array = Json::Array(vec![
        Json::Number("1".to_string()),
        Json::Number("2".to_string()),
        Json::Number("3".to_string()),
    ]);
    let err = win.add(array).unwrap_err();
    assert_eq!(err, WindowError::NotAnObject);
}

#[test]
fn try_new_zero_cap_errors() {
    assert!(matches!(
        MessageWindow::try_new(0, true),
        Err(WindowError::MaxTurnsMustBePositive)
    ));
}

#[test]
fn try_new_valid() {
    assert!(MessageWindow::try_new(1, true).is_ok());
}

#[test]
fn evicted_count_increments_correctly() {
    let mut win = MessageWindow::new(2, false);
    for i in 0..5u32 {
        win.add(user(&i.to_string())).unwrap();
    }
    assert_eq!(win.evicted_count(), 3);
}

#[test]
fn multiple_tool_use_ids_in_one_message() {
    let mut win = MessageWindow::new(2, true);
    win.add(object(vec![
        ("role", text("assistant")),
        (
            "content",
            Json::Array(vec![tool_use_block("a1", "x"), tool_use_block("a2", "y")]),
        ),
    ]))
    .unwrap();
    win.add(tool_result_msg("a1")).unwrap();
    win.add(tool_result_msg("a2")).unwrap();
    win.add(user("next")).unwrap();
    for m in win.messages() {
        if let Some(Json::Array(blocks)) = m.get("content") {
            for b in blocks {
                assert_ne!(b.get("type"), Some(&text("tool_result")));
            }
        }
    }
}

#[test]
fn messages_owned_clones() {
    let mut win = MessageWindow::new(3, true);
    win.add(user("hello")).unwrap();
    let owned = win.messages_owned();
    assert_eq!(owned[0].get("content"), Some(&text("hello")));
}

#[test]
fn single_capacity_window() {
    let mut win = MessageWindow::new(1, true);
    win.add(user("a")).unwrap();
    win.add(user("b")).unwrap();
    assert_eq!(win.len(), 1);
    assert_eq!(win.messages()[0].get("content"), Some(&text("b")));
    assert_eq!(win.evicted_count(), 1);
}

#[test]
fn tool_use_no_result_in_buffer_just_evicts_use() {
    let mut win = MessageWindow::new(1, true);
    win.add(tool_use_msg("u1", "search")).unwrap();
    win.add(user("follow")).unwrap();
    assert_eq!(win.len(), 1);
    assert_eq!(win.messages()[0].get("content"), Some(&text("follow")));
}

#[test]
fn add_then_clear_then_add() {
    let mut win = MessageWindow::new(3, true);
    win.add(user("a")).unwrap();
    win.clear();
    win.add(user("b")).unwrap();
    assert_eq!(win.len(), 1);
    assert_eq!(win.messages()[0].get("content"), Some(&text("b")));
}

#[test]
fn is_empty_and_len() {
    let mut win = MessageWindow::new(3, true);
    assert!(win.is_empty());
    win.add(user("x")).unwrap();
    assert!(!win.is_empty());
    assert_eq!(win.len(), 1);
}
