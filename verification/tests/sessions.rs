use mcpod::transport::legacy_sse::{
    accepts_content_type, messages_path, messages_reply, post_reply, send_outcome, DisconnectGuard,
    LegacySseManager, LegacySseTransportError, MessagesQuery,
};

#[test]
fn unknown_session_returns_404() {
    let manager: LegacySseManager<u8> = LegacySseManager::new(10);
    assert!(manager.deliver("nope").is_none());
    let json = Some(b"application/json".as_slice());
    let reply = messages_reply(json, &Ok(()), Some(false)).unwrap();
    assert_eq!((reply.status, reply.body.as_str()), (404, "Session not found"));
}

#[test]
fn bad_content_type_and_bad_json_rejected() {
    assert!(accepts_content_type(Some(b"application/json")));
    assert!(accepts_content_type(Some(b"application/json; charset=utf-8")));
    assert!(!accepts_content_type(Some(b"text/plain")));
    assert!(!accepts_content_type(Some(b"Application/JSON")));
    assert!(!accepts_content_type(Some(b"application/jso")));
    assert!(!accepts_content_type(Some(b"application/json\xff")));
    assert!(!accepts_content_type(None));
    let json = Some(b"application/json".as_slice());
    let malformed = Err("expected value".to_string());
    for delivered in [None, Some(true), Some(false)] {
        // The type is tested before the body, and both before any session.
        for parsed in [&malformed, &Ok(())] {
            let reply = messages_reply(Some(b"text/plain"), parsed, delivered).unwrap();
            assert_eq!(
                (reply.status, reply.body.as_str()),
                (415, "Content-Type must be application/json")
            );
        }
        let reply = messages_reply(json, &malformed, delivered).unwrap();
        assert_eq!(
            (reply.status, reply.body.as_str()),
            (400, "Invalid JSON-RPC message: expected value")
        );
    }
    assert!(messages_reply(json, &Ok(()), None).is_none());
    let reply = messages_reply(json, &Ok(()), Some(true)).unwrap();
    assert_eq!((reply.status, reply.body.as_str()), (202, "Accepted"));
}

#[test]
fn posted_bodies_are_parsed() {
    let json = Some(b"application/json".as_slice());
    let ping = br#"{"jsonrpc":"2.0","id":1,"method":"ping"}"#.as_slice();
    assert!(post_reply(json, ping, None).is_none());
    assert_eq!(post_reply(json, ping, Some(true)).unwrap().status, 202);
    assert_eq!(post_reply(json, ping, Some(false)).unwrap().status, 404);
    for body in ["{not json", "", "[]", "{}", "hello"] {
        let reply = post_reply(json, body.as_bytes(), None).unwrap();
        let error = serde_json::from_str::<rmcp::model::ClientJsonRpcMessage>(body).unwrap_err();
        assert_eq!(reply.status, 400);
        assert_eq!(reply.body, format!("Invalid JSON-RPC message: {error}"));
    }
    for body in [ping, b"hello".as_slice()] {
        assert_eq!(post_reply(Some(b"text/plain"), body, None).unwrap().status, 415);
        assert_eq!(post_reply(None, body, Some(true)).unwrap().status, 415);
    }
}

#[test]
fn connected_sessions_are_counted() {
    let mut manager = LegacySseManager::new(10);
    manager.insert("a".to_string(), 1);
    manager.insert("b".to_string(), 2);
    assert_eq!(manager.active_count(), 2);
    manager.insert("a".to_string(), 3);
    assert_eq!(manager.active_count(), 2);
    manager.disconnect("a", 0);
    manager.disconnect("a", 1);
    assert_eq!(manager.active_count(), 1);
    assert_eq!(manager.sweep(100), 1);
    assert_eq!(manager.active_count(), 1);
    manager.insert("a".to_string(), 4);
    assert_eq!(manager.active_count(), 2);
}

#[test]
fn two_simultaneous_sse_clients_are_isolated() {
    let mut manager = LegacySseManager::new(10);
    let a = manager.open("a");
    let b = manager.open("b");
    assert_ne!(a, b);
    assert_eq!(manager.deliver(&a), Some(&"a"));
    assert_eq!(manager.deliver(&b), Some(&"b"));
    assert_eq!(manager.active_count(), 2);
    assert!(manager.disconnect(&a, 5));
    assert_eq!(manager.active_count(), 1);
    assert_eq!(manager.deliver(&b), Some(&"b"));
}

#[test]
fn client_can_reconnect_with_a_new_session() {
    let mut manager = LegacySseManager::new(10);
    let first = manager.open(1);
    manager.disconnect(&first, 0);
    let second = manager.open(2);
    assert_ne!(first, second);
    assert_eq!(manager.active_count(), 1);
    assert_eq!(manager.deliver(&second), Some(&2));
}

#[test]
fn session_ids_are_random_uuids() {
    let mut manager = LegacySseManager::new(1);
    let ids: Vec<String> = (0..50).map(|i| manager.open(i)).collect();
    for id in &ids {
        assert_eq!(id.len(), 36);
        for (i, c) in id.chars().enumerate() {
            match i {
                8 | 13 | 18 | 23 => assert_eq!(c, '-'),
                14 => assert_eq!(c, '4'),
                19 => assert!("89ab".contains(c)),
                _ => assert!("0123456789abcdef".contains(c)),
            }
        }
    }
    let mut distinct = ids.clone();
    distinct.sort();
    distinct.dedup();
    assert_eq!(distinct.len(), 50);
    assert_eq!(manager.active_count(), 50);
}

#[test]
fn only_expired_sessions_are_swept() {
    let mut manager = LegacySseManager::new(100);
    for id in ["active", "old", "recent", "edge"] {
        manager.insert(id.to_string(), id.len());
    }
    manager.disconnect("old", 10);
    manager.disconnect("recent", 150);
    manager.disconnect("edge", 100);
    // Only the first disconnect counts.
    manager.disconnect("old", 190);
    assert!(!manager.disconnect("unknown", 1));
    assert_eq!(manager.sweep(200), 1);
    assert!(manager.deliver("old").is_none());
    assert_eq!(manager.deliver("edge"), Some(&4));
    assert_eq!(manager.sweep(200), 0);
    assert_eq!(manager.sweep(201), 1);
    assert!(manager.deliver("edge").is_none());
    // A clock behind the disconnect expires nothing.
    assert_eq!(manager.sweep(0), 0);
    assert_eq!(manager.sweep(u128::MAX), 1);
    assert_eq!(manager.deliver("active"), Some(&6));
    assert_eq!(manager.active_count(), 1);
}

#[test]
fn closing_hands_out_every_session() {
    let mut manager = LegacySseManager::new(1);
    manager.insert("a".to_string(), 1);
    manager.insert("b".to_string(), 2);
    manager.insert("a".to_string(), 3);
    let closed = manager.close_all();
    let list: Vec<(&str, i32)> = closed.iter().map(|s| (s.id.as_str(), s.handle)).collect();
    assert_eq!(list, vec![("a", 3), ("b", 2)]);
    assert_eq!(manager.active_count(), 0);
    assert!(manager.deliver("a").is_none());
    assert!(manager.close_all().is_empty());
}

#[test]
fn the_message_endpoint() {
    assert_eq!(messages_path("abc"), "/messages?sessionId=abc");
    let query = MessagesQuery { session_id: "abc".to_string() };
    assert_eq!(query.session_id, "abc");
}

#[test]
fn stream_outcomes() {
    assert_eq!(send_outcome(true, true), Ok(()));
    assert_eq!(send_outcome(true, false), Err(LegacySseTransportError::Closed));
    assert_eq!(send_outcome(false, true), Err(LegacySseTransportError::SendTimeout));
    assert_eq!(LegacySseTransportError::Closed.message(), "session closed");
    assert_eq!(
        LegacySseTransportError::SendTimeout.message(),
        "client stopped reading SSE stream"
    );
}

#[test]
fn a_guard_fires_once() {
    let mut guard = DisconnectGuard { session_id: "s".to_string(), cancelled: false };
    assert!(guard.fire());
    assert!(!guard.fire());
    assert_eq!(guard.session_id, "s");
}
