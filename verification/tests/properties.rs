use agent_message_window::pairing::{tool_result_refs, tool_use_ids};
use agent_message_window::{Json, MessageWindow, WindowError};

fn text(t: &str) -> Json {
    Json::String(t.to_string())
}

fn object(members: Vec<(&str, Json)>) -> Json {
    Json::Object(members.into_iter().map(|(k, v)| (k.to_string(), v)).collect())
}

fn plain(role: &str, content: &str) -> Json {
    object(vec![("role", text(role)), ("content", text(content))])
}

fn block(kind: &str, key: &str, id: &str) -> Json {
    object(vec![("type", text(kind)), (key, text(id))])
}

fn call(role: &str, ids: &[&str]) -> Json {
    let blocks = ids.iter().map(|id| block("tool_use", "id", id)).collect();
    object(vec![("role", text(role)), ("content", Json::Array(blocks))])
}

fn answer(role: &str, id: &str) -> Json {
    object(vec![
        ("role", text(role)),
        ("content", Json::Array(vec![block("tool_result", "tool_use_id", id)])),
    ])
}

fn content(m: &Json) -> Option<&str> {
    m.get("content").and_then(|c| c.as_str())
}

#[test]
fn cascade_counts_every_dropped_message() {
    let mut win = MessageWindow::new(2, true);
    win.push(call("assistant", &["u1"]));
    win.push(answer("user", "u1"));
    win.push(plain("user", "p"));
    assert_eq!(win.len(), 1);
    assert_eq!(win.evicted_count(), 2);
    assert_eq!(content(win.messages()[0]), Some("p"));
}

#[test]
fn newest_answer_goes_with_its_call() {
    let mut win = MessageWindow::new(1, true);
    win.push(call("assistant", &["u1"]));
    win.push(answer("user", "u1"));
    assert!(win.is_empty());
    assert_eq!(win.evicted_count(), 2);
}

#[test]
fn kept_plus_evicted_is_everything_pushed() {
    let mut win = MessageWindow::new(3, true);
    for i in 0..10u32 {
        if i % 2 == 0 {
            win.push(call("assistant", &[&format!("c{i}")]));
        } else {
            win.push(answer("user", &format!("c{}", i - 1)));
        }
        assert_eq!(win.len() + win.evicted_count(), (i + 1) as usize);
        assert!(win.len() <= 3);
    }
}

#[test]
fn unprotected_window_keeps_the_orphan() {
    let mut win = MessageWindow::new(2, false);
    win.push(call("assistant", &["u1"]));
    win.push(answer("user", "u1"));
    win.push(plain("user", "p"));
    assert_eq!(win.len(), 2);
    assert_eq!(win.messages()[0], &answer("user", "u1"));
    assert_eq!(win.evicted_count(), 1);
}

#[test]
fn tool_use_in_any_role_is_a_call() {
    let mut win = MessageWindow::new(1, true);
    win.push(call("user", &["u1"]));
    win.push(answer("user", "u1"));
    assert!(win.is_empty());
    assert_eq!(win.evicted_count(), 2);
}

#[test]
fn tool_result_in_any_role_is_an_answer() {
    let mut win = MessageWindow::new(2, true);
    win.push(call("assistant", &["u1"]));
    win.push(answer("assistant", "u1"));
    win.push(plain("user", "p"));
    assert_eq!(win.len(), 1);
    assert_eq!(content(win.messages()[0]), Some("p"));
}

#[test]
fn a_dropped_answer_takes_the_other_call_it_answers() {
    let both = object(vec![
        ("role", text("user")),
        (
            "content",
            Json::Array(vec![
                block("tool_result", "tool_use_id", "a"),
                block("tool_result", "tool_use_id", "b"),
            ]),
        ),
    ]);
    let mut win = MessageWindow::new(2, true);
    win.reset(vec![call("assistant", &["a"]), call("assistant", &["b"]), both]);
    assert!(win.is_empty());
    assert_eq!(win.evicted_count(), 3);
}

#[test]
fn an_evicted_answer_takes_a_later_call_with_it() {
    let mut win = MessageWindow::new(2, true);
    win.push(answer("user", "x"));
    win.push(call("assistant", &["x"]));
    win.push(plain("user", "p"));
    assert_eq!(win.len(), 1);
    assert_eq!(content(win.messages()[0]), Some("p"));
    assert_eq!(win.evicted_count(), 2);
}

#[test]
fn the_cascade_follows_chains() {
    let relay = object(vec![
        ("role", text("user")),
        (
            "content",
            Json::Array(vec![
                block("tool_result", "tool_use_id", "a"),
                block("tool_use", "id", "b"),
            ]),
        ),
    ]);
    let mut win = MessageWindow::new(3, true);
    win.push(call("assistant", &["a"]));
    win.push(relay);
    win.push(answer("user", "b"));
    win.push(plain("user", "p"));
    assert_eq!(win.len(), 1);
    assert_eq!(content(win.messages()[0]), Some("p"));
    assert_eq!(win.evicted_count(), 3);
}

#[test]
fn flat_tool_message_is_an_answer() {
    let flat = object(vec![("role", text("tool")), ("tool_use_id", text("f1"))]);
    let refs = tool_result_refs(&flat);
    assert_eq!(refs, vec!["f1".to_string()]);
    let mut win = MessageWindow::new(1, true);
    win.push(call("assistant", &["f1"]));
    win.push(flat);
    assert!(win.is_empty());
}

#[test]
fn ids_are_collected_in_order() {
    assert_eq!(
        tool_use_ids(&call("assistant", &["a", "b", "c"])),
        vec!["a".to_string(), "b".to_string(), "c".to_string()]
    );
    assert_eq!(tool_use_ids(&call("user", &["a"])), vec!["a".to_string()]);
    assert_eq!(tool_result_refs(&answer("user", "z")), vec!["z".to_string()]);
    assert_eq!(tool_result_refs(&answer("assistant", "z")), vec!["z".to_string()]);
    let mixed = object(vec![
        ("role", text("tool")),
        ("tool_use_id", text("t")),
        ("content", Json::Array(vec![block("tool_result", "tool_use_id", "c")])),
    ]);
    assert_eq!(tool_result_refs(&mixed), vec!["c".to_string(), "t".to_string()]);
    assert!(tool_use_ids(&plain("assistant", "hi")).is_empty());
}

#[test]
fn extend_stops_at_the_first_non_object() {
    let mut win = MessageWindow::new(5, true);
    let r = win.extend(vec![plain("user", "a"), Json::Bool(true), plain("user", "b")]);
    assert_eq!(r, Err(WindowError::NotAnObject));
    assert_eq!(win.len(), 1);
    assert_eq!(content(win.messages()[0]), Some("a"));
}

#[test]
fn refused_message_leaves_window_unchanged() {
    let mut win = MessageWindow::new(2, true);
    win.add(plain("user", "a")).unwrap();
    assert_eq!(win.add(Json::Null), Err(WindowError::NotAnObject));
    assert_eq!(win.len(), 1);
    assert_eq!(win.evicted_count(), 0);
}

#[test]
fn push_takes_any_value() {
    let mut win = MessageWindow::new(2, true);
    win.push(Json::Null);
    assert_eq!(win.len(), 1);
}

#[test]
fn reset_counts_from_zero() {
    let mut win = MessageWindow::new(2, true);
    for i in 0..5u32 {
        win.push(plain("user", &i.to_string()));
    }
    assert_eq!(win.evicted_count(), 3);
    win.reset(vec![plain("user", "x"), plain("user", "y"), plain("user", "z")]);
    assert_eq!(win.evicted_count(), 1);
    assert_eq!(content(win.messages()[0]), Some("y"));
    assert_eq!(content(win.messages()[1]), Some("z"));
}

#[test]
fn capacities() {
    assert_eq!(MessageWindow::new(0, true).max_turns(), 1);
    assert_eq!(MessageWindow::new(7, false).max_turns(), 7);
    assert_eq!(MessageWindow::try_new(4, true).unwrap().max_turns(), 4);
}

#[test]
fn error_texts() {
    assert_eq!(WindowError::NotAnObject.message(), "message must be a JSON object");
    assert_eq!(WindowError::MaxTurnsMustBePositive.message(), "max_turns must be >= 1");
}

#[test]
fn owned_copy_equals_window() {
    let mut win = MessageWindow::new(3, true);
    win.push(call("assistant", &["u1"]));
    win.push(answer("user", "u1"));
    win.push(object(vec![("n", Json::Number("1.5".to_string())), ("b", Json::Null)]));
    let owned = win.messages_owned();
    let borrowed: Vec<Json> = win.messages().into_iter().cloned().collect();
    assert_eq!(owned, borrowed);
    assert_eq!(owned[0], call("assistant", &["u1"]));
}

#[test]
fn json_accessors() {
    let v = object(vec![("k", text("first")), ("k", text("second")), ("a", Json::Array(vec![]))]);
    assert_eq!(v.get("k"), Some(&text("first")));
    assert_eq!(v.get("missing"), None);
    assert_eq!(text("x").get("k"), None);
    assert!(v.is_object());
    assert!(!text("x").is_object());
    assert_eq!(text("x").as_str(), Some("x"));
    assert_eq!(v.as_str(), None);
    assert_eq!(v.get("a").and_then(|a| a.as_array()).map(|a| a.len()), Some(0));
    assert_eq!(v.clone(), v);
}

#[test]
fn kept_call_keeps_its_answer() {
    let mut win = MessageWindow::new(3, true);
    win.push(call("assistant", &["a"]));
    win.push(answer("user", "a"));
    win.push(call("assistant", &["b"]));
    win.push(answer("user", "b"));
    assert_eq!(win.len(), 2);
    assert_eq!(win.messages()[0], &call("assistant", &["b"]));
    assert_eq!(win.messages()[1], &answer("user", "b"));
    assert_eq!(win.evicted_count(), 2);
}

#[test]
fn plain_newest_stays_last() {
    let mut win = MessageWindow::new(2, true);
    win.push(call("assistant", &["a"]));
    win.push(answer("user", "a"));
    win.push(call("assistant", &["b"]));
    win.push(plain("user", "q"));
    let msgs = win.messages();
    assert_eq!(content(msgs[msgs.len() - 1]), Some("q"));
}
