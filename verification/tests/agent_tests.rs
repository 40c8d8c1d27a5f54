use agent_tools::agent::{AgentMessageType, AgentStateManager, parse_message_type};

#[test]
fn new_manager_is_empty() {
    let m = AgentStateManager::new();
    assert!(m.get_task_progress("s1").is_none());
    assert!(m.get_user_messages("s1").is_empty());
}

#[test]
fn update_and_get_task_progress() {
    let mut m = AgentStateManager::new();
    let p = m
        .update_task_progress("s1".to_string(), "half done".to_string())
        .unwrap();
    assert_eq!(p.markdown_content, "half done");
    let got = m.get_task_progress("s1").unwrap();
    assert_eq!(got.markdown_content, "half done");
    assert_eq!(got.timestamp, p.timestamp);
    assert!(m.get_task_progress("s2").is_none());
}

#[test]
fn update_replaces_previous_progress() {
    let mut m = AgentStateManager::new();
    m.update_task_progress("s1".to_string(), "first".to_string())
        .unwrap();
    m.update_task_progress("s1".to_string(), "second".to_string())
        .unwrap();
    assert_eq!(m.get_task_progress("s1").unwrap().markdown_content, "second");
}

#[test]
fn messages_accumulate_in_order() {
    let mut m = AgentStateManager::new();
    m.send_user_message("s1".to_string(), "one".to_string(), AgentMessageType::Info)
        .unwrap();
    m.send_user_message("s1".to_string(), "two".to_string(), AgentMessageType::Error)
        .unwrap();
    let msgs = m.get_user_messages("s1");
    assert_eq!(msgs.len(), 2);
    assert_eq!(msgs[0].message, "one");
    assert_eq!(msgs[0].message_type, AgentMessageType::Info);
    assert_eq!(msgs[1].message, "two");
    assert_eq!(msgs[1].message_type, AgentMessageType::Error);
    assert!(m.get_user_messages("s2").is_empty());
}

#[test]
fn sessions_are_independent() {
    let mut m = AgentStateManager::new();
    m.update_task_progress("s1".to_string(), "a".to_string()).unwrap();
    m.update_task_progress("s2".to_string(), "b".to_string()).unwrap();
    m.send_user_message("s1".to_string(), "m1".to_string(), AgentMessageType::Info)
        .unwrap();
    assert_eq!(m.get_task_progress("s1").unwrap().markdown_content, "a");
    assert_eq!(m.get_task_progress("s2").unwrap().markdown_content, "b");
    assert_eq!(m.get_user_messages("s1").len(), 1);
    assert!(m.get_user_messages("s2").is_empty());
}

#[test]
fn clear_session_forgets_only_that_session() {
    let mut m = AgentStateManager::new();
    m.update_task_progress("s1".to_string(), "a".to_string()).unwrap();
    m.update_task_progress("s2".to_string(), "b".to_string()).unwrap();
    m.send_user_message("s1".to_string(), "m".to_string(), AgentMessageType::Success)
        .unwrap();
    m.clear_session("s1");
    assert!(m.get_task_progress("s1").is_none());
    assert!(m.get_user_messages("s1").is_empty());
    assert_eq!(m.get_task_progress("s2").unwrap().markdown_content, "b");
}

#[test]
fn message_type_names_resolve_case_insensitively() {
    assert_eq!(parse_message_type("info"), Some(AgentMessageType::Info));
    assert_eq!(parse_message_type("INFO"), Some(AgentMessageType::Info));
    assert_eq!(parse_message_type("Success"), Some(AgentMessageType::Success));
    assert_eq!(parse_message_type("wArNiNg"), Some(AgentMessageType::Warning));
    assert_eq!(parse_message_type("error"), Some(AgentMessageType::Error));
    assert_eq!(parse_message_type("fatal"), None);
    assert_eq!(parse_message_type(""), None);
}
