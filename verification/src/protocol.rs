//! The byte protocol that clients speak to the cache.
//!
//! A request starts with one byte whose two top bits say what it is:
//! `01` a put, `10` a get, `11` a ping; `00` is skipped. A put carries, after that
//! byte, the length of the topic, the length of the key, the topic, the key, the
//! length of the value in big-endian order (as many bytes as bits 5 and 4 of the
//! first byte say) and the value. A get carries the two lengths, the topic and
//! the key. A ping is answered with one byte, a get that finds its value with a
//! frame that holds the value.
use vstd::prelude::*;
use vstd::utf8::*;
use crate::cache::{Cache, CacheView, put_spec, get_spec};
use crate::frame::{add_get_data, be_number, frame, lemma_size_field_value, pow256, size_field, MAX_FRAME_DATA};

verus! {

/// The byte that answers a ping.
pub const PING: u8 = 0b1100_0000;

/// What the decoder expects next.
#[derive(Clone, Copy, PartialEq, Eq, Debug, Structural)]
pub enum Signal {
    /// The first byte of a request.
    Idle,
    /// The rest of a put whose first byte is given.
    Put(u8),
    /// The rest of a get whose first byte is given.
    Get(u8),
    /// A ping, to be answered.
    Ping,
}

/// An answer owed to the client.
pub enum Reply {
    Ping,
    Value(String),
}

/// An answer, with the value taken by its characters.
pub enum ReplyView {
    Ping,
    Value(Seq<char>),
}

impl View for Reply {
    type V = ReplyView;

    open spec fn view(&self) -> ReplyView {
        match self {
            Reply::Ping => ReplyView::Ping,
            Reply::Value(v) => ReplyView::Value(v@),
        }
    }
}

/// The bytes that carry an answer.
pub open spec fn reply_bytes(r: ReplyView) -> Seq<u8> {
    match r {
        ReplyView::Ping => seq![PING],
        ReplyView::Value(v) => frame(encode_utf8(v)),
    }
}

/// An answer fits in a frame: a value of at most `MAX_FRAME_DATA` bytes.
pub open spec fn reply_fits(r: ReplyView) -> bool {
    match r {
        ReplyView::Ping => true,
        ReplyView::Value(v) => encode_utf8(v).len() <= MAX_FRAME_DATA,
    }
}

impl Reply {
    /// Whether the answer fits in a frame.
    pub fn fits_frame(&self) -> (b: bool)
        ensures
            b == reply_fits(self@),
            b == match self@ {
                ReplyView::Ping => true,
                ReplyView::Value(v) => encode_utf8(v).len() <= MAX_FRAME_DATA,
            },
    {
        match self {
            Reply::Ping => true,
            Reply::Value(v) => v.as_str().as_bytes().len() <= MAX_FRAME_DATA,
        }
    }

    /// The bytes that carry the answer to the client.
    pub fn to_bytes(&self) -> (r: Vec<u8>)
        requires
            reply_fits(self@),
        ensures
            r@ == reply_bytes(self@),
            match self@ {
                ReplyView::Ping => r@ == seq![PING],
                ReplyView::Value(v) => r@ == frame(encode_utf8(v)),
            },
    {
        match self {
            Reply::Ping => {
                let mut r: Vec<u8> = Vec::new();
                r.push(PING);
                assert(r@ =~= seq![PING]);
                r
            },
            Reply::Value(v) => add_get_data(v.as_str().as_bytes()),
        }
    }
}

/// A list of answers, each taken by its view.
pub open spec fn replies_view(s: Seq<Reply>) -> Seq<ReplyView> {
    s.map_values(|r: Reply| r@)
}

/// What `String::from_utf8_lossy` makes of some bytes.
pub uninterp spec fn lossy_utf8(bytes: Seq<u8>) -> Seq<char>;

/// The replacement character, which stands for bytes that are not UTF-8.
pub open spec fn replacement_char() -> char {
    '\u{FFFD}'
}

/// Valid UTF-8 followed by one byte that cannot stand alone.
pub open spec fn valid_then_stray_byte(bytes: Seq<u8>) -> bool {
    bytes.len() > 0 && valid_utf8(bytes.drop_last()) && bytes.last() >= 0x80
}

/// The text that some bytes of a request are read as: their decoding where
/// they are valid UTF-8; the decoding of the valid part followed by one
/// replacement character where a valid part ends in one stray byte; what
/// `String::from_utf8_lossy` makes of them elsewhere.
#[verifier::opaque]
pub open spec fn text(bytes: Seq<u8>) -> Seq<char> {
    if valid_utf8(bytes) {
        decode_utf8(bytes)
    } else if valid_then_stray_byte(bytes) {
        decode_utf8(bytes.drop_last()).push(replacement_char())
    } else {
        lossy_utf8(bytes)
    }
}

/// What a request's first byte announces.
pub open spec fn intention(b: u8) -> Signal {
    let bits = (b & 0b1100_0000) >> 6;
    if bits == 1 {
        Signal::Put(b)
    } else if bits == 2 {
        Signal::Get(b)
    } else if bits == 3 {
        Signal::Ping
    } else {
        Signal::Idle
    }
}

/// How many bytes hold the length of a put's value.
pub open spec fn size_width(b: u8) -> nat {
    ((b & 0b0011_0000) >> 4) as nat
}

/// Where the topic of a request ends (its two length bytes come first).
pub open spec fn topic_end(data: Seq<u8>) -> int {
    2 + data[0]
}

/// Where the key of a request ends.
pub open spec fn key_end(data: Seq<u8>) -> int {
    2 + data[0] + data[1]
}

/// `Idle` comes before every other state.
pub open spec fn signal_rank(s: Signal) -> nat {
    match s {
        Signal::Idle => 0,
        _ => 1,
    }
}

/// What decoding some bytes leaves: the bytes not consumed, how many bytes the
/// decoder needs before it can go on, the state it stops in, the cache, and the
/// answers owed, in order.
pub struct Decoded {
    pub rest: Seq<u8>,
    pub need: nat,
    pub signal: Signal,
    pub cache: CacheView,
    pub replies: Seq<ReplyView>,
}

/// Decoding stops here, waiting for `need` bytes in all.
pub open spec fn stop(data: Seq<u8>, need: nat, signal: Signal, m: CacheView) -> Decoded {
    Decoded { rest: data, need, signal, cache: m, replies: Seq::empty() }
}

/// An answer owed before those of `d`.
pub open spec fn with_reply(r: ReplyView, d: Decoded) -> Decoded {
    Decoded { replies: seq![r] + d.replies, ..d }
}

/// One move of the decoder: wait until `data` holds `Wait`'s count of bytes, or
/// consume some bytes and go on from a new state and cache, perhaps owing an answer.
pub enum Step {
    Wait(nat),
    Next { consumed: nat, signal: Signal, cache: CacheView, reply: Option<ReplyView> },
}

/// What the decoder does with `data` in state `signal`, against cache `m`.
pub open spec fn step(data: Seq<u8>, signal: Signal, m: CacheView) -> Step {
    match signal {
        Signal::Idle => {
            if data.len() == 0 {
                Step::Wait(1)
            } else {
                Step::Next { consumed: 1, signal: intention(data[0]), cache: m, reply: None }
            }
        },
        Signal::Ping => Step::Next { consumed: 0, signal: Signal::Idle, cache: m, reply: Some(ReplyView::Ping) },
        Signal::Put(h) => {
            if data.len() < 2 {
                Step::Wait(2)
            } else {
                let header = key_end(data) + size_width(h);
                if data.len() < header {
                    Step::Wait(header as nat)
                } else {
                    let total = header + be_number(data.subrange(key_end(data), header));
                    if data.len() < total {
                        Step::Wait(total as nat)
                    } else {
                        let topic = text(data.subrange(2, topic_end(data)));
                        let key = text(data.subrange(topic_end(data), key_end(data)));
                        let value = text(data.subrange(header, total));
                        Step::Next {
                            consumed: total as nat,
                            signal: Signal::Idle,
                            cache: put_spec(m, topic, key, value),
                            reply: None,
                        }
                    }
                }
            }
        },
        Signal::Get(_) => {
            if data.len() < 2 {
                Step::Wait(2)
            } else {
                let header = key_end(data);
                if data.len() < header {
                    Step::Wait(header as nat)
                } else {
                    let topic = text(data.subrange(2, topic_end(data)));
                    let key = text(data.subrange(topic_end(data), key_end(data)));
                    Step::Next {
                        consumed: header as nat,
                        signal: Signal::Idle,
                        cache: m,
                        reply: match get_spec(m, topic, key) {
                            Ok(v) => Some(ReplyView::Value(v)),
                            Err(_) => None,
                        },
                    }
                }
            }
        },
    }
}

/// Decodes every complete request in `data`, from state `signal`, against cache `m`.
pub open spec fn decode(data: Seq<u8>, signal: Signal, m: CacheView) -> Decoded
    decreases data.len(), signal_rank(signal),
{
    match step(data, signal, m) {
        Step::Wait(need) => stop(data, need, signal, m),
        Step::Next { consumed, signal: next, cache, reply } => {
            proof {
                lemma_step_progress(data, signal, m);
            }
            let after = decode(data.skip(consumed as int), next, cache);
            match reply {
                Some(r) => with_reply(r, after),
                None => after,
            }
        },
    }
}

/// Each move of the decoder consumes bytes, or leaves `Ping` for `Idle`.
pub proof fn lemma_step_progress(data: Seq<u8>, signal: Signal, m: CacheView)
    ensures
        step(data, signal, m) matches Step::Next { consumed, signal: next, .. } ==> consumed
            <= data.len() && (consumed > 0 || signal_rank(next) < signal_rank(signal)),
{
}

/// Reads `data[start..end]` as text.
///
/// Calls `String::from_utf8_lossy`. Claimed: the result is `lossy_utf8` of those
/// bytes; as its documentation says, it is their decoding where they are valid
/// UTF-8, and an invalid sequence becomes one U+FFFD, so valid UTF-8 followed by
/// one byte that is not a character on its own reads as the valid part's
/// decoding and one U+FFFD. How other invalid bytes are replaced is not stated.
#[verifier::external_body]
fn extract_string(data: &Vec<u8>, start: usize, end: usize) -> (s: String)
    requires
        start <= end <= data@.len(),
    ensures
        s@ == lossy_utf8(data@.subrange(start as int, end as int)),
        valid_utf8(data@.subrange(start as int, end as int)) ==> s@ == decode_utf8(
            data@.subrange(start as int, end as int),
        ),
        valid_then_stray_byte(data@.subrange(start as int, end as int)) ==> s@ == decode_utf8(
            data@.subrange(start as int, end as int).drop_last(),
        ).push(replacement_char()),
{
    String::from_utf8_lossy(&data[start..end]).into_owned()
}

/// The bytes of `data` from `pos` on.
fn tail(data: &Vec<u8>, pos: usize) -> (r: Vec<u8>)
    requires
        pos <= data@.len(),
    ensures
        r@ == data@.skip(pos as int),
{
    let mut r: Vec<u8> = Vec::new();
    let mut i: usize = pos;
    while i < data.len()
        invariant
            pos <= i <= data@.len(),
            r@ == data@.subrange(pos as int, i as int),
        decreases data@.len() - i,
    {
        r.push(data[i]);
        i = i + 1;
        assert(r@ =~= data@.subrange(pos as int, i as int));
    }
    assert(r@ =~= data@.skip(pos as int));
    r
}

proof fn lemma_be_number_step(s: Seq<u8>, a: int, b: int)
    requires
        0 <= a <= b < s.len(),
    ensures
        be_number(s.subrange(a, b + 1)) == be_number(s.subrange(a, b)) * 256 + s[b],
{
    assert(s.subrange(a, b + 1).drop_last() =~= s.subrange(a, b));
}

/// Runs a put whose first byte is `h` on the bytes of `data` from `pos` on:
/// `Err` with the number of bytes it waits for, or `Ok` with the number it consumed.
fn step_put(data: &Vec<u8>, pos: usize, h: u8, cache: &mut Cache) -> (r: Result<usize, usize>)
    requires
        pos <= data@.len(),
    ensures
        match step(data@.skip(pos as int), Signal::Put(h), old(cache)@) {
            Step::Wait(need) => r matches Err(n) && n == need && final(cache)@ == old(cache)@,
            Step::Next { consumed, cache: m, .. } => r matches Ok(c) && c == consumed
                && final(cache)@ == m,
        },
{
    let ghost cur = data@.skip(pos as int);
    let avail = data.len() - pos;
    let width = ((h & 0b0011_0000) >> 4) as usize;
    assert((h & 0b0011_0000) >> 4 <= 3) by (bit_vector);
    if avail < 2 {
        return Err(2);
    }
    let topic_len = data[pos] as usize;
    let key_len = data[pos + 1] as usize;
    let header = 2 + topic_len + key_len + width;
    assert(cur[0] == topic_len && cur[1] == key_len);
    if avail < header {
        return Err(header);
    }
    let size_start = pos + 2 + topic_len + key_len;
    let size_end = size_start + width;
    let mut size: usize = 0;
    let mut i: usize = 0;
    while i < width
        invariant
            i <= width <= 3,
            size_end == size_start + width,
            size_end <= data@.len(),
            size == be_number(data@.subrange(size_start as int, size_start + i)),
            i == 0 ==> size == 0,
            i == 1 ==> size < 0x100,
            i == 2 ==> size < 0x1_0000,
            i == 3 ==> size < 0x100_0000,
        decreases width - i,
    {
        proof {
            lemma_be_number_step(data@, size_start as int, size_start + i);
        }
        size = size * 256 + data[size_start + i] as usize;
        i = i + 1;
    }
    let total = header + size;
    assert(cur.subrange(key_end(cur), key_end(cur) + width) =~= data@.subrange(
        size_start as int,
        size_end as int,
    ));
    if avail < total {
        return Err(total);
    }
    let topic = extract_string(data, pos + 2, pos + 2 + topic_len);
    let key = extract_string(data, pos + 2 + topic_len, size_start);
    let value = extract_string(data, pos + header, pos + total);
    proof {
        reveal(text);
    }
    cache.put(topic.as_str(), key.as_str(), value.as_str());
    assert(cur.subrange(2, topic_end(cur)) =~= data@.subrange(pos + 2, pos + 2 + topic_len));
    assert(cur.subrange(topic_end(cur), key_end(cur)) =~= data@.subrange(
        pos + 2 + topic_len,
        size_start as int,
    ));
    assert(cur.subrange(header as int, total as int) =~= data@.subrange(pos + header, pos + total));
    Ok(total)
}

/// Runs a get on the bytes of `data` from `pos` on, appending the value it
/// finds to `replies`: `Err` with the number of bytes it waits for, or `Ok`
/// with the number it consumed.
fn step_get(data: &Vec<u8>, pos: usize, h: u8, cache: &Cache, replies: &mut Vec<Reply>) -> (r: Result<
    usize,
    usize,
>)
    requires
        pos <= data@.len(),
    ensures
        match step(data@.skip(pos as int), Signal::Get(h), cache@) {
            Step::Wait(need) => r matches Err(n) && n == need && final(replies)@ == old(replies)@,
            Step::Next { consumed, reply, .. } => r matches Ok(c) && c == consumed && match reply {
                Some(v) => replies_view(final(replies)@) == replies_view(old(replies)@).push(v),
                None => final(replies)@ == old(replies)@,
            },
        },
{
    let ghost cur = data@.skip(pos as int);
    let avail = data.len() - pos;
    if avail < 2 {
        return Err(2);
    }
    let topic_len = data[pos] as usize;
    let key_len = data[pos + 1] as usize;
    let header = 2 + topic_len + key_len;
    assert(cur[0] == topic_len && cur[1] == key_len);
    if avail < header {
        return Err(header);
    }
    let topic = extract_string(data, pos + 2, pos + 2 + topic_len);
    let key = extract_string(data, pos + 2 + topic_len, pos + header);
    proof {
        reveal(text);
    }
    assert(cur.subrange(2, topic_end(cur)) =~= data@.subrange(pos + 2, pos + 2 + topic_len));
    assert(cur.subrange(topic_end(cur), key_end(cur)) =~= data@.subrange(
        pos + 2 + topic_len,
        pos + header,
    ));
    match cache.get(topic.as_str(), key.as_str()) {
        Ok(value) => {
            replies.push(Reply::Value(value));
            assert(replies_view(replies@) =~= replies_view(old(replies)@).push(
                ReplyView::Value(value@),
            ));
        },
        Err(_) => {},
    }
    Ok(header)
}

/// Decodes the complete requests at the front of `data`, from state `signal`:
/// puts go to `cache`, answers are appended to `replies`, the bytes consumed
/// leave `data`. Returns how many bytes `data` must hold before the next call
/// can go on, and the state to resume from; `None` when `data` was empty.
pub fn process(data: &mut Vec<u8>, signal: Signal, cache: &mut Cache, replies: &mut Vec<Reply>) -> (r:
    Option<(usize, Signal)>)
    ensures
        old(data)@.len() == 0 ==> {
            &&& r is None
            &&& final(data)@ == old(data)@
            &&& final(cache)@ == old(cache)@
            &&& final(replies)@ == old(replies)@
        },
        old(data)@.len() > 0 ==> {
            let d = decode(old(data)@, signal, old(cache)@);
            &&& r matches Some((need, next)) && need == d.need && next == d.signal
            &&& final(data)@ == d.rest
            &&& final(cache)@ == d.cache
            &&& replies_view(final(replies)@) == replies_view(old(replies)@) + d.replies
        },
{
    if data.len() == 0 {
        return None;
    }
    let ghost d0 = decode(data@, signal, cache@);
    let ghost base = replies_view(replies@);
    let mut pos: usize = 0;
    let mut sig = signal;
    proof {
        assert(data@.skip(0) =~= data@);
        assert(base + d0.replies =~= replies_view(replies@) + d0.replies);
    }
    loop
        invariant
            pos <= data@.len(),
            old(data)@.len() > 0,
            data@ == old(data)@,
            d0 == decode(old(data)@, signal, old(cache)@),
            base == replies_view(old(replies)@),
            ({
                let d = decode(data@.skip(pos as int), sig, cache@);
                &&& d.rest == d0.rest
                &&& d.need == d0.need
                &&& d.signal == d0.signal
                &&& d.cache == d0.cache
                &&& replies_view(replies@) + d.replies == base + d0.replies
            }),
        decreases data@.len() - pos, signal_rank(sig),
    {
        let ghost cur = data@.skip(pos as int);
        let ghost m = cache@;
        let ghost before = replies_view(replies@);
        proof {
            lemma_step_progress(cur, sig, m);
        }
        let waiting: usize;
        match sig {
            Signal::Idle => {
                if pos == data.len() {
                    waiting = 1;
                } else {
                    let b = data[pos];
                    let bits = (b & 0b1100_0000) >> 6;
                    sig = if bits == 1 {
                        Signal::Put(b)
                    } else if bits == 2 {
                        Signal::Get(b)
                    } else if bits == 3 {
                        Signal::Ping
                    } else {
                        Signal::Idle
                    };
                    pos = pos + 1;
                    assert(cur[0] == b);
                    assert(cur.drop_first() =~= data@.skip(pos as int));
                    assert(cur.skip(1) =~= data@.skip(pos as int));
                    continue;
                }
            },
            Signal::Ping => {
                replies.push(Reply::Ping);
                sig = Signal::Idle;
                proof {
                    let d = decode(cur, Signal::Idle, m);
                    assert(cur.skip(0) =~= cur);
                    assert(replies_view(replies@) =~= before.push(ReplyView::Ping));
                    assert(replies_view(replies@) + d.replies =~= before + (seq![ReplyView::Ping]
                        + d.replies));
                }
                continue;
            },
            Signal::Put(h) => {
                match step_put(data, pos, h, cache) {
                    Err(n) => {
                        waiting = n;
                    },
                    Ok(c) => {
                        assert(c <= cur.len());
                        assert(pos + c <= data.len());
                        assert(cur.skip(c as int) =~= data@.skip(pos + c));
                        pos = pos + c;
                        sig = Signal::Idle;
                        continue;
                    },
                }
            },
            Signal::Get(h) => {
                match step_get(data, pos, h, cache, replies) {
                    Err(n) => {
                        waiting = n;
                    },
                    Ok(c) => {
                        assert(c <= cur.len());
                        assert(pos + c <= data.len());
                        proof {
                            let next = decode(data@.skip(pos + c), Signal::Idle, m);
                            assert(cur.skip(c as int) =~= data@.skip(pos + c));
                            if let Step::Next { reply: Some(v), .. } = step(cur, sig, m) {
                                assert(replies_view(replies@) + next.replies =~= before + (seq![v]
                                    + next.replies));
                            }
                        }
                        pos = pos + c;
                        sig = Signal::Idle;
                        continue;
                    },
                }
            },
        }
        let rest = tail(data, pos);
        *data = rest;
        proof {
            assert(replies_view(replies@) =~= replies_view(replies@) + Seq::<ReplyView>::empty());
        }
        return Some((waiting, sig));
    }
}

/// The bytes of a put of `value` under `key` in `topic`, the value's length
/// written in `w` bytes.
pub open spec fn put_request(w: nat, topic: Seq<u8>, key: Seq<u8>, value: Seq<u8>) -> Seq<u8> {
    seq![(0b0100_0000 + 0b1_0000 * w) as u8, topic.len() as u8, key.len() as u8] + topic + key
        + size_field(value.len(), w) + value
}

/// The bytes of a get of `key` in `topic`.
pub open spec fn get_request(topic: Seq<u8>, key: Seq<u8>) -> Seq<u8> {
    seq![0b1000_0000u8, topic.len() as u8, key.len() as u8] + topic + key
}

/// The bytes of a ping.
pub open spec fn ping_request() -> Seq<u8> {
    seq![0b1100_0000u8]
}

/// A put request at the front of the bytes stores its value, read as text,
/// and the decoder goes on with the bytes after it.
pub proof fn lemma_decode_put(
    w: nat,
    topic: Seq<u8>,
    key: Seq<u8>,
    value: Seq<u8>,
    rest: Seq<u8>,
    m: CacheView,
)
    requires
        w <= 3,
        topic.len() < 256,
        key.len() < 256,
        value.len() < pow256(w),
    ensures
        decode(put_request(w, topic, key, value) + rest, Signal::Idle, m) == decode(
            rest,
            Signal::Idle,
            put_spec(m, text(topic), text(key), text(value)),
        ),
{
    let data = put_request(w, topic, key, value) + rest;
    let h = (0b0100_0000 + 0b1_0000 * w) as u8;
    if w == 0 {
        assert(h == 0x40u8);
        assert((0x40u8 & 0b1100_0000u8) >> 6u8 == 1u8 && (0x40u8 & 0b0011_0000u8) >> 4u8 == 0u8) by (bit_vector);
    } else if w == 1 {
        assert(h == 0x50u8);
        assert((0x50u8 & 0b1100_0000u8) >> 6u8 == 1u8 && (0x50u8 & 0b0011_0000u8) >> 4u8 == 1u8) by (bit_vector);
    } else if w == 2 {
        assert(h == 0x60u8);
        assert((0x60u8 & 0b1100_0000u8) >> 6u8 == 1u8 && (0x60u8 & 0b0011_0000u8) >> 4u8 == 2u8) by (bit_vector);
    } else {
        assert(h == 0x70u8);
        assert((0x70u8 & 0b1100_0000u8) >> 6u8 == 1u8 && (0x70u8 & 0b0011_0000u8) >> 4u8 == 3u8) by (bit_vector);
    }
    assert(data[0] == h);
    assert(intention(h) == Signal::Put(h));
    assert(size_width(h) == w);
    let d1 = data.drop_first();
    let tl = topic.len() as int;
    let kl = key.len() as int;
    let vl = value.len() as int;
    assert(d1 =~= seq![topic.len() as u8, key.len() as u8] + topic + key + size_field(value.len(), w)
        + value + rest);
    assert(d1[0] == tl && d1[1] == kl);
    assert(key_end(d1) == 2 + tl + kl);
    let header = 2 + tl + kl + w;
    assert(d1.subrange(2 + tl + kl, header) =~= size_field(value.len(), w));
    lemma_size_field_value(value.len(), w);
    vstd::arithmetic::div_mod::lemma_small_mod(value.len(), pow256(w));
    assert(be_number(d1.subrange(key_end(d1), header)) == vl);
    let total = header + vl;
    assert(d1.subrange(2, topic_end(d1)) =~= topic);
    assert(d1.subrange(topic_end(d1), key_end(d1)) =~= key);
    assert(d1.subrange(header, total) =~= value);
    assert(d1.skip(total) =~= rest);
    assert(data.skip(1) =~= d1);
    assert(decode(d1, Signal::Put(h), m) == decode(
        rest,
        Signal::Idle,
        put_spec(m, text(topic), text(key), text(value)),
    ));
}

/// A get request at the front of the bytes owes the value it finds, read
/// against the cache as it is, and the decoder goes on with the bytes after it.
pub proof fn lemma_decode_get(topic: Seq<u8>, key: Seq<u8>, rest: Seq<u8>, m: CacheView)
    requires
        topic.len() < 256,
        key.len() < 256,
    ensures
        ({
            let after = decode(rest, Signal::Idle, m);
            decode(get_request(topic, key) + rest, Signal::Idle, m) == match get_spec(
                m,
                text(topic),
                text(key),
            ) {
                Ok(v) => with_reply(ReplyView::Value(v), after),
                Err(_) => after,
            }
        }),
{
    let data = get_request(topic, key) + rest;
    assert(((0b1000_0000u8 & 0b1100_0000u8) >> 6u8) == 2u8) by (bit_vector);
    assert(data[0] == 0b1000_0000u8);
    assert(intention(data[0]) == Signal::Get(0b1000_0000u8));
    let d1 = data.drop_first();
    let tl = topic.len() as int;
    let kl = key.len() as int;
    assert(d1 =~= seq![topic.len() as u8, key.len() as u8] + topic + key + rest);
    assert(d1[0] == tl && d1[1] == kl);
    assert(d1.subrange(2, topic_end(d1)) =~= topic);
    assert(d1.subrange(topic_end(d1), key_end(d1)) =~= key);
    assert(d1.skip(2 + tl + kl) =~= rest);
    assert(data.skip(1) =~= d1);
    assert(decode(data, Signal::Idle, m) == decode(d1, Signal::Get(0b1000_0000u8), m));
}

/// A ping at the front of the bytes owes a ping.
pub proof fn lemma_decode_ping(rest: Seq<u8>, m: CacheView)
    ensures
        decode(ping_request() + rest, Signal::Idle, m) == with_reply(
            ReplyView::Ping,
            decode(rest, Signal::Idle, m),
        ),
{
    let data = ping_request() + rest;
    assert(((0b1100_0000u8 & 0b1100_0000u8) >> 6u8) == 3u8) by (bit_vector);
    assert(data[0] == 0b1100_0000u8);
    assert(data.skip(1) =~= rest);
    assert(intention(data[0]) == Signal::Ping);
    assert(decode(data, Signal::Idle, m) == decode(rest, Signal::Ping, m));
    assert(rest.skip(0) =~= rest);
    assert(decode(rest, Signal::Ping, m) == with_reply(ReplyView::Ping, decode(rest, Signal::Idle, m)));
}

/// A get that follows a put of a key its topic did not hold answers with the
/// value put, read as text; nothing is left over and the decoder waits for the
/// next request.
pub proof fn lemma_put_then_get(w: nat, topic: Seq<u8>, key: Seq<u8>, value: Seq<u8>, m: CacheView)
    requires
        w <= 3,
        topic.len() < 256,
        key.len() < 256,
        value.len() < pow256(w),
        !(m.contains_key(text(topic)) && m[text(topic)].contains_key(text(key))),
    ensures
        ({
            let d = decode(
                put_request(w, topic, key, value) + get_request(topic, key),
                Signal::Idle,
                m,
            );
            &&& d.replies == seq![ReplyView::Value(text(value))]
            &&& d.cache == put_spec(m, text(topic), text(key), text(value))
            &&& d.rest.len() == 0
            &&& d.need == 1
            &&& d.signal == Signal::Idle
        }),
{
    let m2 = put_spec(m, text(topic), text(key), text(value));
    lemma_decode_put(w, topic, key, value, get_request(topic, key), m);
    lemma_decode_get(topic, key, Seq::empty(), m2);
    assert(get_request(topic, key) + Seq::<u8>::empty() =~= get_request(topic, key));
    crate::cache::lemma_get_after_put(m, text(topic), text(key), text(value));
    let after = decode(Seq::<u8>::empty(), Signal::Idle, m2);
    assert(after.replies.len() == 0);
    assert(seq![ReplyView::Value(text(value))] + after.replies =~= seq![
        ReplyView::Value(text(value)),
    ]);
}

/// Decoding stops only for want of bytes: what it leaves is shorter than what
/// it waits for.
pub proof fn lemma_decode_waits_for_more(data: Seq<u8>, signal: Signal, m: CacheView)
    ensures
        decode(data, signal, m).rest.len() < decode(data, signal, m).need,
    decreases data.len(), signal_rank(signal),
{
    lemma_step_progress(data, signal, m);
    if let Step::Next { consumed, signal: next, cache, .. } = step(data, signal, m) {
        lemma_decode_waits_for_more(data.skip(consumed as int), next, cache);
    }
}

/// Answers owed before those of `d`.
pub open spec fn with_replies(r: Seq<ReplyView>, d: Decoded) -> Decoded {
    Decoded { replies: r + d.replies, ..d }
}

/// A move that the decoder can make on some bytes it makes the same way when
/// more bytes follow them.
proof fn lemma_step_extend(x: Seq<u8>, y: Seq<u8>, signal: Signal, m: CacheView)
    requires
        step(x, signal, m) is Next,
    ensures
        step(x + y, signal, m) == step(x, signal, m),
{
    let z = x + y;
    lemma_step_progress(x, signal, m);
    match signal {
        Signal::Idle => {
            assert(z[0] == x[0]);
        },
        Signal::Ping => {},
        Signal::Put(h) => {
            assert(z[0] == x[0] && z[1] == x[1]);
            let header = key_end(x) + size_width(h);
            assert(z.subrange(key_end(x), header) =~= x.subrange(key_end(x), header));
            let total = header + be_number(x.subrange(key_end(x), header));
            assert(z.subrange(2, topic_end(x)) =~= x.subrange(2, topic_end(x)));
            assert(z.subrange(topic_end(x), key_end(x)) =~= x.subrange(topic_end(x), key_end(x)));
            assert(z.subrange(header, total) =~= x.subrange(header, total));
        },
        Signal::Get(_) => {
            assert(z[0] == x[0] && z[1] == x[1]);
            assert(z.subrange(2, topic_end(x)) =~= x.subrange(2, topic_end(x)));
            assert(z.subrange(topic_end(x), key_end(x)) =~= x.subrange(topic_end(x), key_end(x)));
        },
    }
}

/// Bytes may arrive in any pieces: decoding `x` and then the bytes it left
/// followed by `y`, from where it stopped, gives what decoding `x` followed by
/// `y` gives, with the answers owed for `x` first.
pub proof fn lemma_decode_append(x: Seq<u8>, y: Seq<u8>, signal: Signal, m: CacheView)
    ensures
        ({
            let d = decode(x, signal, m);
            decode(x + y, signal, m) == with_replies(
                d.replies,
                decode(d.rest + y, d.signal, d.cache),
            )
        }),
    decreases x.len(), signal_rank(signal),
{
    lemma_step_progress(x, signal, m);
    match step(x, signal, m) {
        Step::Wait(_) => {
            let e = decode(x + y, signal, m);
            assert(Seq::<ReplyView>::empty() + e.replies =~= e.replies);
        },
        Step::Next { consumed, signal: next, cache, reply } => {
            lemma_step_extend(x, y, signal, m);
            lemma_step_progress(x + y, signal, m);
            assert((x + y).skip(consumed as int) =~= x.skip(consumed as int) + y);
            lemma_decode_append(x.skip(consumed as int), y, next, cache);
            let d1 = decode(x.skip(consumed as int), next, cache);
            let e1 = decode(d1.rest + y, d1.signal, d1.cache);
            if let Some(r) = reply {
                assert(seq![r] + (d1.replies + e1.replies) =~= (seq![r] + d1.replies) + e1.replies);
            }
        },
    }
}

/// Whether the decoder waits, and for how many bytes, does not depend on the cache.
pub proof fn lemma_wait_ignores_cache(data: Seq<u8>, signal: Signal, m1: CacheView, m2: CacheView)
    requires
        step(data, signal, m1) is Wait,
    ensures
        step(data, signal, m2) == step(data, signal, m1),
{
}

/// A decoder that waits for `n` bytes still waits for them when more bytes
/// come but fewer than `n` in all.
pub proof fn lemma_wait_extend(x: Seq<u8>, y: Seq<u8>, signal: Signal, m: CacheView)
    requires
        step(x, signal, m) matches Step::Wait(n) && (x + y).len() < n,
    ensures
        step(x + y, signal, m) == step(x, signal, m),
{
    let z = x + y;
    match signal {
        Signal::Put(h) => {
            if x.len() >= 2 {
                assert(z[0] == x[0] && z[1] == x[1]);
                let header = key_end(x) + size_width(h);
                if x.len() >= header {
                    assert(z.subrange(key_end(x), header) =~= x.subrange(key_end(x), header));
                }
            }
        },
        Signal::Get(_) => {
            if x.len() >= 2 {
                assert(z[0] == x[0] && z[1] == x[1]);
            }
        },
        _ => {},
    }
}

/// Where decoding stops, the decoder waits for as many bytes as it says,
/// whatever the cache.
pub proof fn lemma_decode_stops_waiting(data: Seq<u8>, signal: Signal, m: CacheView, m2: CacheView)
    ensures
        ({
            let d = decode(data, signal, m);
            step(d.rest, d.signal, m2) == Step::Wait(d.need)
        }),
    decreases data.len(), signal_rank(signal),
{
    lemma_step_progress(data, signal, m);
    match step(data, signal, m) {
        Step::Wait(_) => {
            lemma_wait_ignores_cache(data, signal, m, m2);
        },
        Step::Next { consumed, signal: next, cache, .. } => {
            lemma_decode_stops_waiting(data.skip(consumed as int), next, cache, m2);
        },
    }
}

/// Text encoded as UTF-8 is read back as itself.
pub proof fn lemma_text_of_encoded(chars: Seq<char>)
    ensures
        text(encode_utf8(chars)) == chars,
{
    reveal(text);
    encode_utf8_valid_utf8(chars);
    encode_utf8_decode_utf8(chars);
}

/// A get that follows a put of a key its topic did not hold answers with the
/// very text put, when topic, key and value are sent as UTF-8 text.
pub proof fn lemma_put_then_get_text(
    w: nat,
    topic: Seq<char>,
    key: Seq<char>,
    value: Seq<char>,
    m: CacheView,
)
    requires
        w <= 3,
        encode_utf8(topic).len() < 256,
        encode_utf8(key).len() < 256,
        encode_utf8(value).len() < pow256(w),
        !(m.contains_key(topic) && m[topic].contains_key(key)),
    ensures
        ({
            let d = decode(
                put_request(w, encode_utf8(topic), encode_utf8(key), encode_utf8(value))
                    + get_request(encode_utf8(topic), encode_utf8(key)),
                Signal::Idle,
                m,
            );
            &&& d.replies == seq![ReplyView::Value(value)]
            &&& d.cache == put_spec(m, topic, key, value)
            &&& d.rest.len() == 0
            &&& d.need == 1
            &&& d.signal == Signal::Idle
        }),
{
    lemma_text_of_encoded(topic);
    lemma_text_of_encoded(key);
    lemma_text_of_encoded(value);
    lemma_put_then_get(w, encode_utf8(topic), encode_utf8(key), encode_utf8(value), m);
}

/// A ping is answered with the ping byte alone; a value with a frame whose
/// header marks an answer and gives the number `w` of length bytes, whose `w`
/// length bytes, read most significant first, hold the number of bytes of the
/// value's UTF-8 encoding (modulo 256 to the `w`), and whose remaining bytes
/// are that encoding.
pub proof fn lemma_reply_bytes_layout(r: ReplyView)
    requires
        reply_fits(r),
    ensures
        r == ReplyView::Ping ==> reply_bytes(r) == seq![PING],
        r matches ReplyView::Value(v) ==> ({
            let b = reply_bytes(r);
            let bytes = encode_utf8(v);
            let w = ((b[0] & 0b0011_0000) >> 4) as nat;
            &&& (b[0] & 0b1100_0000) >> 6 == 2
            &&& w <= 3
            &&& b.skip(1 + w as int) == bytes
            &&& be_number(b.subrange(1, 1 + w as int)) == bytes.len() % pow256(w)
            &&& (bytes.len() != 1 && bytes.len() != 0x100 && bytes.len() != 0x1_0000 && bytes.len()
                != 0x100_0000 ==> be_number(b.subrange(1, 1 + w as int)) == bytes.len())
        }),
{
    if let ReplyView::Value(v) = r {
        crate::frame::lemma_frame_layout(encode_utf8(v));
    }
}

/// Every answer fits in a frame but a value whose UTF-8 encoding is longer
/// than `MAX_FRAME_DATA` bytes; the empty value fits.
pub proof fn lemma_reply_fits(v: Seq<char>)
    ensures
        reply_fits(ReplyView::Ping),
        reply_fits(ReplyView::Value(v)) <==> encode_utf8(v).len() <= MAX_FRAME_DATA,
        reply_fits(ReplyView::Value(Seq::empty())),
{
    assert(encode_utf8(Seq::<char>::empty()) =~= Seq::<u8>::empty());
}

/// A get that has not fully arrived changes nothing and owes nothing: the
/// decoder keeps the bytes after the first and waits for the two length bytes,
/// then for exactly as many bytes as the two lengths and the topic and key take.
pub proof fn lemma_get_prefix_waits(topic: Seq<u8>, key: Seq<u8>, n: nat, m: CacheView)
    requires
        topic.len() < 256,
        key.len() < 256,
        1 <= n < get_request(topic, key).len(),
    ensures
        ({
            let p = get_request(topic, key).take(n as int);
            let d = decode(p, Signal::Idle, m);
            &&& d.rest == p.skip(1)
            &&& d.signal == Signal::Get(0b1000_0000u8)
            &&& d.cache == m
            &&& d.replies.len() == 0
            &&& d.need == if n < 3 { 2 } else { 2 + topic.len() + key.len() }
        }),
{
    let r = get_request(topic, key);
    let p = r.take(n as int);
    assert(((0b1000_0000u8 & 0b1100_0000u8) >> 6u8) == 2u8) by (bit_vector);
    assert(p[0] == 0b1000_0000u8);
    assert(intention(p[0]) == Signal::Get(0b1000_0000u8));
    let d1 = p.skip(1);
    if n >= 3 {
        assert(d1[0] == topic.len() && d1[1] == key.len());
    }
    assert(decode(p, Signal::Idle, m) == decode(d1, Signal::Get(0b1000_0000u8), m));
}

/// A put that has not fully arrived changes nothing and owes nothing: the
/// decoder keeps the bytes after the first and waits for the two length bytes,
/// then for exactly as many bytes as reach the end of the value's length
/// bytes, then for exactly as many as reach the end of the value.
pub proof fn lemma_put_prefix_waits(
    w: nat,
    topic: Seq<u8>,
    key: Seq<u8>,
    value: Seq<u8>,
    n: nat,
    m: CacheView,
)
    requires
        w <= 3,
        topic.len() < 256,
        key.len() < 256,
        value.len() < pow256(w),
        1 <= n < put_request(w, topic, key, value).len(),
    ensures
        ({
            let p = put_request(w, topic, key, value).take(n as int);
            let d = decode(p, Signal::Idle, m);
            let header = 2 + topic.len() + key.len() + w;
            &&& d.rest == p.skip(1)
            &&& d.signal == Signal::Put(p[0])
            &&& d.cache == m
            &&& d.replies.len() == 0
            &&& d.need == if n < 3 {
                2
            } else if n < 1 + header {
                header
            } else {
                header + value.len()
            }
        }),
{
    let r = put_request(w, topic, key, value);
    let p = r.take(n as int);
    let h = (0b0100_0000 + 0b1_0000 * w) as u8;
    if w == 0 {
        assert(h == 0x40u8);
        assert((0x40u8 & 0b1100_0000u8) >> 6u8 == 1u8 && (0x40u8 & 0b0011_0000u8) >> 4u8 == 0u8) by (bit_vector);
    } else if w == 1 {
        assert(h == 0x50u8);
        assert((0x50u8 & 0b1100_0000u8) >> 6u8 == 1u8 && (0x50u8 & 0b0011_0000u8) >> 4u8 == 1u8) by (bit_vector);
    } else if w == 2 {
        assert(h == 0x60u8);
        assert((0x60u8 & 0b1100_0000u8) >> 6u8 == 1u8 && (0x60u8 & 0b0011_0000u8) >> 4u8 == 2u8) by (bit_vector);
    } else {
        assert(h == 0x70u8);
        assert((0x70u8 & 0b1100_0000u8) >> 6u8 == 1u8 && (0x70u8 & 0b0011_0000u8) >> 4u8 == 3u8) by (bit_vector);
    }
    assert(p[0] == h);
    assert(intention(h) == Signal::Put(h));
    assert(size_width(h) == w);
    let d1 = p.skip(1);
    let tl = topic.len() as int;
    let kl = key.len() as int;
    let header = 2 + tl + kl + w;
    if n >= 3 {
        assert(d1[0] == tl && d1[1] == kl);
        if n >= 1 + header {
            assert(d1.subrange(2 + tl + kl, header) =~= size_field(value.len(), w));
            lemma_size_field_value(value.len(), w);
            vstd::arithmetic::div_mod::lemma_small_mod(value.len(), pow256(w));
        }
    }
    assert(decode(p, Signal::Idle, m) == decode(d1, Signal::Put(h), m));
}

/// Valid UTF-8 followed by a byte of 0x80 or more is not valid UTF-8: the
/// byte cannot stand alone, nor finish a character.
pub proof fn lemma_stray_byte_invalid(a: Seq<u8>, x: u8)
    requires
        valid_utf8(a),
        x >= 0x80,
    ensures
        !valid_utf8(a.push(x)),
    decreases a.len(),
{
    let b = a.push(x);
    if a.len() > 0 {
        assert(b[0] == a[0]);
        if a.len() > 1 {
            assert(b[1] == a[1]);
        }
        if a.len() > 2 {
            assert(b[2] == a[2]);
        }
        if a.len() > 3 {
            assert(b[3] == a[3]);
        }
        let l = length_of_first_scalar(a);
        assert(pop_first_scalar(b) =~= pop_first_scalar(a).push(x));
        lemma_stray_byte_invalid(pop_first_scalar(a), x);
    }
}

/// Text read from bytes: valid UTF-8 reads as its decoding; valid UTF-8
/// followed by one stray byte keeps the valid characters and ends in a single
/// replacement character, so two such byte strings that differ in their valid
/// parts read differently.
pub proof fn lemma_text_reading(a: Seq<u8>, x: u8)
    requires
        valid_utf8(a),
        x >= 0x80,
    ensures
        text(a) == decode_utf8(a),
        text(a.push(x)) == decode_utf8(a).push(replacement_char()),
        text(a.push(x)).len() == decode_utf8(a).len() + 1,
        text(a.push(x)).take(decode_utf8(a).len() as int) == decode_utf8(a),
{
    reveal(text);
    lemma_stray_byte_invalid(a, x);
    assert(a.push(x).drop_last() =~= a);
    assert(decode_utf8(a).push(replacement_char()).take(decode_utf8(a).len() as int) =~= decode_utf8(a));
}

/// A put whose value is valid UTF-8 followed by one stray byte stores the
/// value's valid characters followed by one replacement character.
pub proof fn lemma_put_stray_byte(
    w: nat,
    topic: Seq<u8>,
    key: Seq<u8>,
    a: Seq<u8>,
    x: u8,
    rest: Seq<u8>,
    m: CacheView,
)
    requires
        w <= 3,
        topic.len() < 256,
        key.len() < 256,
        a.len() + 1 < pow256(w),
        valid_utf8(a),
        x >= 0x80,
    ensures
        decode(put_request(w, topic, key, a.push(x)) + rest, Signal::Idle, m) == decode(
            rest,
            Signal::Idle,
            put_spec(m, text(topic), text(key), decode_utf8(a).push(replacement_char())),
        ),
{
    lemma_decode_put(w, topic, key, a.push(x), rest, m);
    lemma_text_reading(a, x);
}

} // verus!
