use lumencite::chat::{
    check_color, check_highlight_update, check_new_message, check_new_session, check_scope_mode,
    valid_color, valid_role, valid_scope_mode, HighlightUpdate, NewChatMessage, NewChatSession,
};

fn session(mode: &str) -> NewChatSession {
    NewChatSession {
        title: "t".to_string(),
        provider: "p".to_string(),
        model: "m".to_string(),
        system_prompt: None,
        scope_mode: mode.to_string(),
        entry_ids: vec![1, 2],
    }
}

fn message(role: &str) -> NewChatMessage {
    NewChatMessage {
        session_id: 1,
        role: role.to_string(),
        content: "hi".to_string(),
        tool_calls: None,
        tool_call_id: None,
    }
}

#[test]
fn scope_modes_and_roles_are_closed_sets() {
    assert!(valid_scope_mode("all") && valid_scope_mode("entries"));
    assert!(!valid_scope_mode("ALL") && !valid_scope_mode(""));
    assert!(valid_role("user") && valid_role("assistant") && valid_role("tool"));
    assert!(!valid_role("system"));
}

#[test]
fn a_session_with_an_unknown_scope_is_refused() {
    assert!(check_new_session(&session("entries")).is_ok());
    assert_eq!(check_new_session(&session("some")), Err("invalid scope_mode: some".to_string()));
    assert_eq!(check_scope_mode("x"), Err("invalid scope_mode: x".to_string()));
}

#[test]
fn a_message_with_an_unknown_role_is_refused() {
    assert!(check_new_message(&message("tool")).is_ok());
    assert_eq!(check_new_message(&message("system")), Err("invalid role: system".to_string()));
}

#[test]
fn highlight_colours_are_checked() {
    assert!(valid_color("yellow"));
    assert!(!valid_color("purple-ish"));
    assert!(check_color("yellow").is_ok());
    assert!(check_highlight_update(&HighlightUpdate { color: None, note: Some("n".to_string()) }).is_ok());
    assert!(check_highlight_update(&HighlightUpdate { color: Some("purple-ish".to_string()), note: None }).is_err());
}

#[test]
fn an_unknown_colour_is_named_in_the_error() {
    assert_eq!(check_color("red"), Err("invalid color: red".to_string()));
    assert!(valid_color("green") && valid_color("blue"));
}
