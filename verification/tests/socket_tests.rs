use backoffice_api::socket::{socket_step, SocketAction, SocketEvent};

#[test]
fn text_is_echoed_to_everyone() {
    match socket_step(SocketEvent::Text("hi".into())) {
        SocketAction::Broadcast(s) => assert_eq!(s, "hi + text"),
        _ => panic!("expected a broadcast"),
    }
}

#[test]
fn close_and_failure_disconnect() {
    assert!(matches!(socket_step(SocketEvent::Close), SocketAction::Disconnect));
    assert!(matches!(socket_step(SocketEvent::Failed), SocketAction::Disconnect));
    assert!(matches!(socket_step(SocketEvent::Other), SocketAction::Stop));
}
