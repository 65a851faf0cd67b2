use courier::app_state::{count_resolved, key_action, resolved_percent, sidebar_label, unresolved_sample, Action, App, Key};
use courier::chatdb::ConversationSummary;

fn summary(name: &str, resolved: bool) -> ConversationSummary {
    ConversationSummary {
        name: name.to_string(),
        identifiers: vec![name.to_string()],
        rowids: vec![1],
        services: vec!["SMS".to_string()],
        resolved,
    }
}

#[test]
fn navigation_wraps_both_ways() {
    let mut app = App::new(Ok(vec![summary("a", true), summary("b", true), summary("c", false)]));
    assert_eq!(app.selected_index(), Some(0));
    app.previous();
    assert_eq!(app.selected_index(), Some(2));
    app.next();
    assert_eq!(app.selected_index(), Some(0));
    app.next();
    app.next();
    assert_eq!(app.selected().map(|c| c.name.as_str()), Some("c"));
    app.next();
    assert_eq!(app.selected_index(), Some(0));
}

#[test]
fn empty_or_failed_list_has_no_selection() {
    let mut app = App::new(Err("no database".to_string()));
    assert_eq!(app.selected_index(), None);
    app.next();
    app.previous();
    assert_eq!(app.selected_index(), None);
    assert!(app.selected().is_none());
    assert_eq!(app.error().map(|e| e.as_str()), Some("no database"));
    assert!(app.chats().is_empty());
}

#[test]
fn figures_for_the_sidebar_and_diagnostics() {
    let chats = vec![summary("Ada", true), summary("+1555", false), summary("Bob", true), summary("+1444", false)];
    assert_eq!(count_resolved(&chats), 2);
    assert_eq!(resolved_percent(2, 4), 50);
    assert_eq!(resolved_percent(1, 3), 33);
    assert_eq!(resolved_percent(0, 0), 0);
    assert_eq!(unresolved_sample(&chats, 10), vec![1, 3]);
    assert_eq!(unresolved_sample(&chats, 1), vec![1]);
    assert_eq!(sidebar_label(&chats[0]), "Ada");
    assert_eq!(sidebar_label(&chats[1]), "\u{b7} +1555");
}

#[test]
fn keys_map_to_actions() {
    assert_eq!(key_action(true, Key::Char('q')), Action::Quit);
    assert_eq!(key_action(true, Key::Esc), Action::Quit);
    assert_eq!(key_action(true, Key::Char('j')), Action::Next);
    assert_eq!(key_action(true, Key::Down), Action::Next);
    assert_eq!(key_action(true, Key::Char('k')), Action::Previous);
    assert_eq!(key_action(true, Key::Up), Action::Previous);
    assert_eq!(key_action(true, Key::Char('x')), Action::Ignore);
    assert_eq!(key_action(true, Key::Other), Action::Ignore);
    assert_eq!(key_action(false, Key::Char('q')), Action::Ignore);
}

#[test]
fn actions_move_the_selection_or_stop() {
    let mut app = App::new(Ok(vec![summary("a", true), summary("b", true)]));
    assert!(app.apply(Action::Next));
    assert_eq!(app.selected_index(), Some(1));
    assert!(app.apply(Action::Ignore));
    assert_eq!(app.selected_index(), Some(1));
    assert!(app.apply(Action::Previous));
    assert_eq!(app.selected_index(), Some(0));
    assert!(!app.apply(Action::Quit));
    assert_eq!(app.selected_index(), Some(0));
}
