use rudish::cache::Cache;
use rudish::protocol::{process, Reply, Signal, PING};

fn value_of(reply: &Reply) -> Option<String> {
    match reply {
        Reply::Ping => None,
        Reply::Value(v) => Some(v.clone()),
    }
}

fn put_request(topic: &[u8], key: &[u8], value: &[u8]) -> Vec<u8> {
    let mut r = vec![0b0101_0000, topic.len() as u8, key.len() as u8];
    r.extend_from_slice(topic);
    r.extend_from_slice(key);
    r.push(value.len() as u8);
    r.extend_from_slice(value);
    r
}

fn get_request(topic: &[u8], key: &[u8]) -> Vec<u8> {
    let mut r = vec![0b1000_0000, topic.len() as u8, key.len() as u8];
    r.extend_from_slice(topic);
    r.extend_from_slice(key);
    r
}

#[test]
fn empty_data_is_left_alone() {
    let mut data: Vec<u8> = Vec::new();
    let mut cache = Cache::new();
    let mut replies = Vec::new();
    assert_eq!(process(&mut data, Signal::Ping, &mut cache, &mut replies), None);
    assert!(replies.is_empty());
}

#[test]
fn ping_is_answered() {
    let mut data = vec![0b1100_0000];
    let mut cache = Cache::new();
    let mut replies = Vec::new();
    assert_eq!(process(&mut data, Signal::Idle, &mut cache, &mut replies), Some((1, Signal::Idle)));
    assert!(data.is_empty());
    assert_eq!(replies.len(), 1);
    assert!(matches!(replies[0], Reply::Ping));
    assert!(replies[0].fits_frame());
    assert_eq!(replies[0].to_bytes(), vec![PING]);
}

#[test]
fn byte_with_top_bits_zero_is_skipped() {
    let mut data = vec![0b0011_1111, 0b1100_0000];
    let mut cache = Cache::new();
    let mut replies = Vec::new();
    assert_eq!(process(&mut data, Signal::Idle, &mut cache, &mut replies), Some((1, Signal::Idle)));
    assert_eq!(replies.len(), 1);
}

#[test]
fn put_then_get_answers_with_the_value() {
    let mut data = put_request(b"t", b"k", b"abc");
    data.extend(get_request(b"t", b"k"));
    let mut cache = Cache::new();
    let mut replies = Vec::new();
    assert_eq!(process(&mut data, Signal::Idle, &mut cache, &mut replies), Some((1, Signal::Idle)));
    assert!(data.is_empty());
    assert_eq!(cache.get("t", "k"), Ok("abc".to_string()));
    assert_eq!(replies.len(), 1);
    assert_eq!(value_of(&replies[0]), Some("abc".to_string()));
    assert_eq!(replies[0].to_bytes(), vec![0b1001_0000, 3, b'a', b'b', b'c']);
}

#[test]
fn get_of_missing_key_owes_nothing() {
    let mut data = get_request(b"t", b"k");
    let mut cache = Cache::new();
    let mut replies = Vec::new();
    assert_eq!(process(&mut data, Signal::Idle, &mut cache, &mut replies), Some((1, Signal::Idle)));
    assert!(data.is_empty());
    assert!(replies.is_empty());
}

#[test]
fn put_waits_for_its_lengths() {
    let mut data = vec![0b0101_0000, 1];
    let mut cache = Cache::new();
    let mut replies = Vec::new();
    assert_eq!(
        process(&mut data, Signal::Idle, &mut cache, &mut replies),
        Some((2, Signal::Put(0b0101_0000)))
    );
    assert_eq!(data, vec![1]);
}

#[test]
fn put_waits_for_its_header() {
    let mut data = vec![0b0101_0000, 1, 1, b't'];
    let mut cache = Cache::new();
    let mut replies = Vec::new();
    assert_eq!(
        process(&mut data, Signal::Idle, &mut cache, &mut replies),
        Some((5, Signal::Put(0b0101_0000)))
    );
    assert_eq!(data, vec![1, 1, b't']);
}

#[test]
fn put_waits_for_its_value() {
    let mut data = vec![0b0101_0000, 1, 1, b't', b'k', 3, b'a'];
    let mut cache = Cache::new();
    let mut replies = Vec::new();
    assert_eq!(
        process(&mut data, Signal::Idle, &mut cache, &mut replies),
        Some((8, Signal::Put(0b0101_0000)))
    );
    assert_eq!(data, vec![1, 1, b't', b'k', 3, b'a']);
    assert_eq!(cache.get("t", "k"), Err("Topic not found: t".to_string()));
}

#[test]
fn put_resumes_from_its_state() {
    let mut data = vec![1, 1, b't', b'k', 2, b'h', b'i'];
    let mut cache = Cache::new();
    let mut replies = Vec::new();
    assert_eq!(
        process(&mut data, Signal::Put(0b0101_0000), &mut cache, &mut replies),
        Some((1, Signal::Idle))
    );
    assert_eq!(cache.get("t", "k"), Ok("hi".to_string()));
}

#[test]
fn put_with_two_length_bytes() {
    let value = vec![b'x'; 300];
    let mut data = vec![0b0110_0000, 1, 1, b't', b'k', 1, 44];
    data.extend_from_slice(&value);
    let mut cache = Cache::new();
    let mut replies = Vec::new();
    assert_eq!(process(&mut data, Signal::Idle, &mut cache, &mut replies), Some((1, Signal::Idle)));
    assert_eq!(cache.get("t", "k"), Ok("x".repeat(300)));
}

#[test]
fn put_with_no_length_bytes_stores_empty_value() {
    let mut data = vec![0b0100_0000, 1, 1, b't', b'k'];
    let mut cache = Cache::new();
    let mut replies = Vec::new();
    assert_eq!(process(&mut data, Signal::Idle, &mut cache, &mut replies), Some((1, Signal::Idle)));
    assert_eq!(cache.get("t", "k"), Ok(String::new()));
}

#[test]
fn get_waits_for_its_key() {
    let mut data = vec![0b1000_0000, 1, 2, b't', b'k'];
    let mut cache = Cache::new();
    let mut replies = Vec::new();
    assert_eq!(
        process(&mut data, Signal::Idle, &mut cache, &mut replies),
        Some((5, Signal::Get(0b1000_0000)))
    );
    assert_eq!(data, vec![1, 2, b't', b'k']);
}

#[test]
fn invalid_text_is_replaced() {
    let mut data = put_request(b"t", b"k", &[0xFF]);
    let mut cache = Cache::new();
    let mut replies = Vec::new();
    assert_eq!(process(&mut data, Signal::Idle, &mut cache, &mut replies), Some((1, Signal::Idle)));
    assert_eq!(cache.get("t", "k"), Ok("\u{FFFD}".to_string()));
}

#[test]
fn requests_after_a_put_are_decoded_in_order() {
    let mut data = put_request(b"t", b"k", b"v");
    data.push(0b1100_0000);
    data.extend(get_request(b"t", b"k"));
    data.push(0b1100_0000);
    let mut cache = Cache::new();
    let mut replies = Vec::new();
    assert_eq!(process(&mut data, Signal::Idle, &mut cache, &mut replies), Some((1, Signal::Idle)));
    assert_eq!(replies.len(), 3);
    assert!(matches!(replies[0], Reply::Ping));
    assert_eq!(value_of(&replies[1]), Some("v".to_string()));
    assert!(matches!(replies[2], Reply::Ping));
}

#[test]
fn long_reply_does_not_fit() {
    let reply = Reply::Value("a".repeat(0x100_0001));
    assert!(!reply.fits_frame());
    let reply = Reply::Value("a".repeat(0x100_0000));
    assert!(reply.fits_frame());
}

#[test]
fn utf8_text_reads_back_as_itself() {
    let topic = "thé".as_bytes();
    let key = "clé".as_bytes();
    let value = "naïve ✓".as_bytes();
    let mut data = put_request(topic, key, value);
    data.extend(get_request(topic, key));
    let mut cache = Cache::new();
    let mut replies = Vec::new();
    assert_eq!(process(&mut data, Signal::Idle, &mut cache, &mut replies), Some((1, Signal::Idle)));
    assert_eq!(cache.get("thé", "clé"), Ok("naïve ✓".to_string()));
    assert_eq!(replies.len(), 1);
    assert_eq!(value_of(&replies[0]), Some("naïve ✓".to_string()));
}
