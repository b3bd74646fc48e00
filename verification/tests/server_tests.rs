use std::sync::{Arc, RwLock};
use rudish::cache::Cache;
use rudish::protocol::Reply;
use rudish::server::{RudishSessionHandler, Session, TCPServerSettings, BUFFER_SIZE};

#[test]
fn settings_keep_port_and_threads() {
    let s = TCPServerSettings::new(8080, 50);
    assert_eq!(s.port, 8080);
    assert_eq!(s.threads, 50);
}

#[test]
fn handler_keeps_what_it_shares() {
    let cache = Arc::new(RwLock::new(Cache::new()));
    let input = Arc::new(RwLock::new([0u8; BUFFER_SIZE]));
    let output = Arc::new(RwLock::new([0u8; BUFFER_SIZE]));
    let handler = RudishSessionHandler::new(cache.clone(), input.clone(), output.clone());
    let (c, i, o) = handler.into_parts();
    assert!(Arc::ptr_eq(&c, &cache));
    assert!(Arc::ptr_eq(&i, &input));
    assert!(Arc::ptr_eq(&o, &output));
}

#[test]
fn session_decodes_bytes_that_arrive_one_by_one() {
    let request = [0b0101_0000u8, 1, 1, b't', b'k', 2, b'h', b'i', 0b1000_0000, 1, 1, b't', b'k'];
    let mut session = Session::new();
    let mut cache = Cache::new();
    let mut replies = Vec::new();
    for b in request.iter() {
        session.receive(&[*b], &mut cache, &mut replies);
    }
    assert_eq!(cache.get("t", "k"), Ok("hi".to_string()));
    assert_eq!(replies.len(), 1);
    match &replies[0] {
        Reply::Value(v) => assert_eq!(v, "hi"),
        Reply::Ping => panic!("expected a value"),
    }
}

#[test]
fn session_waits_for_missing_bytes() {
    let mut session = Session::new();
    let mut cache = Cache::new();
    let mut replies = Vec::new();
    session.receive(&[0b0101_0000, 1, 1, b't'], &mut cache, &mut replies);
    assert!(replies.is_empty());
    session.receive(&[b'k', 1], &mut cache, &mut replies);
    assert_eq!(cache.get("t", "k"), Err("Topic not found: t".to_string()));
    session.receive(&[b'v', 0b1100_0000], &mut cache, &mut replies);
    assert_eq!(cache.get("t", "k"), Ok("v".to_string()));
    assert_eq!(replies.len(), 1);
    assert!(matches!(replies[0], Reply::Ping));
}

#[test]
fn session_answers_the_same_whatever_the_pieces() {
    let bytes = [
        0b1100_0000u8, 0b0101_0000, 1, 2, b't', b'k', b'1', 3, b'a', b'b', b'c', 0b1000_0000, 1, 2, b't', b'k',
        b'1', 0b0000_0001, 0b1100_0000,
    ];
    let mut whole = Session::new();
    let mut whole_cache = Cache::new();
    let mut whole_replies = Vec::new();
    whole.receive(&bytes, &mut whole_cache, &mut whole_replies);
    for cut in 0..bytes.len() {
        let mut split = Session::new();
        let mut split_cache = Cache::new();
        let mut split_replies = Vec::new();
        split.receive(&bytes[..cut], &mut split_cache, &mut split_replies);
        split.receive(&bytes[cut..], &mut split_cache, &mut split_replies);
        assert_eq!(split_replies.len(), whole_replies.len());
        assert_eq!(split_replies.len(), 3);
        assert_eq!(split_cache.get("t", "k1"), Ok("abc".to_string()));
        assert!(matches!(split_replies[0], Reply::Ping));
        match &split_replies[1] {
            Reply::Value(v) => assert_eq!(v, "abc"),
            Reply::Ping => panic!("expected a value"),
        }
        assert!(matches!(split_replies[2], Reply::Ping));
    }
}
