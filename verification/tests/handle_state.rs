use debug_bridge::handle::ConnectionState;
use debug_bridge::proto::Event;

#[test]
fn starts_disconnected() {
    let state = ConnectionState::new();
    assert!(!state.is_connected());
}

#[test]
fn drain_returns_texts_and_mirrors_connection() {
    let mut state = ConnectionState::new();
    let msgs = state.drain(vec![
        Event::PeerConnected,
        Event::Message("a".to_string()),
        Event::Message("b".to_string()),
    ]);
    assert_eq!(msgs, vec!["a".to_string(), "b".to_string()]);
    assert!(state.is_connected());

    let msgs = state.drain(vec![Event::Message("c".to_string()), Event::PeerDisconnected]);
    assert_eq!(msgs, vec!["c".to_string()]);
    assert!(!state.is_connected());
}

#[test]
fn drain_of_nothing_is_empty_not_an_error() {
    let mut state = ConnectionState::new();
    assert!(state.drain(Vec::new()).is_empty());
    assert!(!state.is_connected());
}

#[test]
fn mirror_follows_last_event() {
    let mut state = ConnectionState::new();
    state.drain(vec![
        Event::PeerConnected,
        Event::PeerDisconnected,
        Event::PeerConnected,
    ]);
    assert!(state.is_connected());
}

#[test]
fn connect_probe_waits_for_connect_only() {
    let mut state = ConnectionState::new();
    assert!(!state.note_connect_probe(&Event::Message("early".to_string())));
    assert!(!state.note_connect_probe(&Event::PeerDisconnected));
    assert!(!state.is_connected());
    assert!(state.note_connect_probe(&Event::PeerConnected));
    assert!(state.is_connected());
}

#[test]
fn apply_event_hands_back_message_text() {
    let mut state = ConnectionState::new();
    assert_eq!(state.apply_event(Event::PeerConnected), None);
    assert_eq!(
        state.apply_event(Event::Message("hi".to_string())),
        Some("hi".to_string())
    );
    assert_eq!(state.apply_event(Event::PeerDisconnected), None);
    assert!(!state.is_connected());
}
