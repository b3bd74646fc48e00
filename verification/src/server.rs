//! The pieces a server is built from: its settings, the shared buffers of a
//! session, and the decisions a session takes on the bytes it receives.
use std::sync::atomic::AtomicBool;
use std::sync::{Arc, RwLock};
use vstd::prelude::*;
use crate::cache::{Cache, CacheView};
use crate::frame::pow256;
use crate::protocol::{
    get_request, put_request, text,
    decode, lemma_decode_append, lemma_decode_stops_waiting, lemma_decode_waits_for_more,
    lemma_put_then_get, lemma_wait_extend, process, replies_view, step, with_replies, Reply,
    ReplyView, Signal, Step,
};

verus! {

/// The size of the buffers through which a session's bytes pass.
pub const BUFFER_SIZE: usize = 1024 * 5;

/// Declares std's `RwLock`, so that a session handler can hold the locks it
/// shares; nothing is claimed of what a lock holds or does.
#[verifier::external_type_specification]
#[verifier::external_body]
#[verifier::reject_recursive_types(T)]
pub struct ExRwLock<T: ?Sized>(RwLock<T>);

/// Declares std's `io::Error`, the error a server's `run` and `close` may
/// return; nothing is claimed of it.
#[verifier::external_type_specification]
#[verifier::external_body]
pub struct ExIoError(std::io::Error);

/// A server, built from its settings and a flag that tells it to stop.
pub trait Server<T>: Sized {
    fn run(&self) -> std::io::Result<()>;

    fn close(&self) -> std::io::Result<()>;

    fn new(config: T, terminate: Arc<AtomicBool>) -> Self;
}

/// Where a TCP server listens, and how many sessions it serves at once.
pub struct TCPServerSettings {
    pub port: u16,
    pub threads: usize,
}

impl TCPServerSettings {
    pub fn new(port: u16, threads: usize) -> (s: Self)
        ensures
            s.port == port,
            s.threads == threads,
    {
        Self { port, threads }
    }
}

/// What a session shares with the rest of the server: the cache, the buffer
/// its bytes arrive in, and the buffer its answers leave through.
pub struct RudishSessionHandler {
    cache: Arc<RwLock<Cache>>,
    master_buffer: Arc<RwLock<[u8; BUFFER_SIZE]>>,
    write_master_buffer: Arc<RwLock<[u8; BUFFER_SIZE]>>,
}

impl RudishSessionHandler {
    pub fn new(
        cache: Arc<RwLock<Cache>>,
        master_buffer: Arc<RwLock<[u8; BUFFER_SIZE]>>,
        write_master_buffer: Arc<RwLock<[u8; BUFFER_SIZE]>>,
    ) -> (h: Self)
        ensures
            h.cache() == cache,
            h.master_buffer() == master_buffer,
            h.write_master_buffer() == write_master_buffer,
    {
        Self { cache, master_buffer, write_master_buffer }
    }

    pub closed spec fn cache(&self) -> Arc<RwLock<Cache>> {
        self.cache
    }

    pub closed spec fn master_buffer(&self) -> Arc<RwLock<[u8; BUFFER_SIZE]>> {
        self.master_buffer
    }

    pub closed spec fn write_master_buffer(&self) -> Arc<RwLock<[u8; BUFFER_SIZE]>> {
        self.write_master_buffer
    }

    /// The cache, the incoming buffer and the outgoing buffer, in that order.
    pub fn into_parts(self) -> (r: (
        Arc<RwLock<Cache>>,
        Arc<RwLock<[u8; BUFFER_SIZE]>>,
        Arc<RwLock<[u8; BUFFER_SIZE]>>,
    ))
        ensures
            r.0 == self.cache(),
            r.1 == self.master_buffer(),
            r.2 == self.write_master_buffer(),
    {
        (self.cache, self.master_buffer, self.write_master_buffer)
    }
}

/// The decoder's state between two arrivals of bytes.
pub struct SessionView {
    pub data: Seq<u8>,
    pub required: nat,
    pub signal: Signal,
}

/// What a session becomes when `bytes` arrive, with the cache after it and the
/// answers it owes: once it holds as many bytes as it waits for, it decodes
/// all it holds; before, it only keeps them.
pub open spec fn receive_spec(s: SessionView, bytes: Seq<u8>, m: CacheView) -> (
    SessionView,
    CacheView,
    Seq<ReplyView>,
) {
    let held = s.data + bytes;
    if held.len() >= s.required && held.len() > 0 {
        let d = decode(held, s.signal, m);
        (SessionView { data: d.rest, required: d.need, signal: d.signal }, d.cache, d.replies)
    } else {
        (SessionView { data: held, ..s }, m, Seq::empty())
    }
}

/// The session holds fewer bytes than it waits for, and the decoder, in the
/// session's state, waits for exactly that many.
pub open spec fn settled(s: SessionView) -> bool {
    &&& s.data.len() < s.required
    &&& forall|m: CacheView| #[trigger] step(s.data, s.signal, m) == Step::Wait(s.required)
}

/// A session's bytes not yet decoded, how many it waits for, and the state the
/// decoder resumes from.
pub struct Session {
    data: Vec<u8>,
    required_bytes: usize,
    signal: Signal,
}

impl View for Session {
    type V = SessionView;

    closed spec fn view(&self) -> SessionView {
        SessionView { data: self.data@, required: self.required_bytes as nat, signal: self.signal }
    }
}

impl Session {
    /// A session that has received nothing and waits for one byte.
    pub fn new() -> (s: Self)
        ensures
            s@ == (SessionView { data: Seq::empty(), required: 1, signal: Signal::Idle }),
            settled(s@),
    {
        let s = Session { data: Vec::new(), required_bytes: 1, signal: Signal::Idle };
        assert(settled(s@));
        s
    }

    /// Takes `bytes` in; once the session holds as many bytes as it waits for,
    /// decodes what it holds against `cache`, appending the answers to `replies`.
    pub fn receive(&mut self, bytes: &[u8], cache: &mut Cache, replies: &mut Vec<Reply>)
        ensures
            ({
                let (s, m, r) = receive_spec(old(self)@, bytes@, old(cache)@);
                &&& final(self)@ == s
                &&& final(cache)@ == m
                &&& replies_view(final(replies)@) == replies_view(old(replies)@) + r
            }),
            settled(old(self)@) ==> settled(final(self)@),
    {
        let mut i: usize = 0;
        while i < bytes.len()
            invariant
                i <= bytes@.len(),
                self.data@ == old(self).data@ + bytes@.take(i as int),
                self.required_bytes == old(self).required_bytes,
                self.signal == old(self).signal,
            decreases bytes@.len() - i,
        {
            self.data.push(bytes[i]);
            i = i + 1;
            assert(self.data@ =~= old(self).data@ + bytes@.take(i as int));
        }
        assert(bytes@.take(bytes@.len() as int) =~= bytes@);
        if self.data.len() >= self.required_bytes {
            if let Some((required, signal)) = process(&mut self.data, self.signal, cache, replies) {
                self.required_bytes = required;
                self.signal = signal;
            }
        }
        proof {
            assert(replies_view(replies@) =~= replies_view(replies@) + Seq::<ReplyView>::empty());
            if settled(old(self)@) {
                lemma_receive_keeps_settled(old(self)@, bytes@, old(cache)@);
            }
        }
    }
}

/// A session that is settled stays settled when bytes arrive.
pub proof fn lemma_receive_keeps_settled(s: SessionView, bytes: Seq<u8>, m: CacheView)
    requires
        settled(s),
    ensures
        settled(receive_spec(s, bytes, m).0),
{
    let held = s.data + bytes;
    if held.len() >= s.required && held.len() > 0 {
        let d = decode(held, s.signal, m);
        lemma_decode_waits_for_more(held, s.signal, m);
        assert forall|m2: CacheView| #[trigger] step(d.rest, d.signal, m2) == Step::Wait(d.need) by {
            lemma_decode_stops_waiting(held, s.signal, m, m2);
        }
    } else {
        assert forall|m2: CacheView| #[trigger] step(held, s.signal, m2) == Step::Wait(s.required) by {
            assert(step(s.data, s.signal, m2) == Step::Wait(s.required));
            lemma_wait_extend(s.data, bytes, s.signal, m2);
        }
    }
}

/// What a session becomes when the pieces `chunks` arrive one after another,
/// with the cache after them and the answers owed, in order.
pub open spec fn receive_all(s: SessionView, chunks: Seq<Seq<u8>>, m: CacheView) -> (
    SessionView,
    CacheView,
    Seq<ReplyView>,
)
    decreases chunks.len(),
{
    if chunks.len() == 0 {
        (s, m, Seq::empty())
    } else {
        let (s1, m1, r1) = receive_spec(s, chunks[0], m);
        let (s2, m2, r2) = receive_all(s1, chunks.drop_first(), m1);
        (s2, m2, r1 + r2)
    }
}

/// Bytes may reach a session in any pieces: receiving `a` and then `b` leaves
/// the session and the cache as receiving `a` followed by `b` at once does, and
/// owes the same answers in the same order.
pub proof fn lemma_receive_in_pieces(s: SessionView, a: Seq<u8>, b: Seq<u8>, m: CacheView)
    requires
        settled(s),
    ensures
        ({
            let (s1, m1, r1) = receive_spec(s, a, m);
            let (s2, m2, r2) = receive_spec(s1, b, m1);
            let (s3, m3, r3) = receive_spec(s, a + b, m);
            &&& s2 == s3
            &&& m2 == m3
            &&& r1 + r2 == r3
        }),
{
    let held1 = s.data + a;
    assert(s.data + (a + b) =~= held1 + b);
    assert(step(s.data, s.signal, m) == Step::Wait(s.required));
    if held1.len() < s.required {
        let (s1, m1, r1) = receive_spec(s, a, m);
        assert(r1 + receive_spec(s1, b, m1).2 =~= receive_spec(s1, b, m1).2);
    } else {
        let d = decode(held1, s.signal, m);
        lemma_decode_append(held1, b, s.signal, m);
        lemma_decode_waits_for_more(held1, s.signal, m);
        lemma_decode_stops_waiting(held1, s.signal, m, d.cache);
        let held2 = d.rest + b;
        if held2.len() < d.need {
            lemma_wait_extend(d.rest, b, d.signal, d.cache);
            assert(d.replies + Seq::<ReplyView>::empty() =~= d.replies);
            assert(decode(held2, d.signal, d.cache).replies =~= Seq::<ReplyView>::empty());
            assert(with_replies(d.replies, decode(held2, d.signal, d.cache)).replies =~= d.replies
                + Seq::<ReplyView>::empty());
        }
    }
}

/// Bytes may reach a session in any number of pieces: receiving the pieces one
/// after another leaves the session and the cache as receiving all their bytes
/// at once does, and owes the same answers in the same order.
pub proof fn lemma_receive_any_pieces(s: SessionView, chunks: Seq<Seq<u8>>, m: CacheView)
    requires
        settled(s),
    ensures
        receive_all(s, chunks, m) == receive_spec(s, chunks.flatten(), m),
    decreases chunks.len(),
{
    if chunks.len() == 0 {
        assert(s.data + Seq::<u8>::empty() =~= s.data);
        assert(receive_spec(s, chunks.flatten(), m).0 == s);
    } else {
        let (s1, m1, r1) = receive_spec(s, chunks[0], m);
        lemma_receive_keeps_settled(s, chunks[0], m);
        lemma_receive_any_pieces(s1, chunks.drop_first(), m1);
        lemma_receive_in_pieces(s, chunks[0], chunks.drop_first().flatten(), m);
        assert(chunks.flatten() == chunks[0] + chunks.drop_first().flatten());
    }
}

/// A fresh session that receives a put of a key its topic does not hold,
/// followed by a get of that key, stores the value and owes exactly one
/// answer, the value put, whatever it is (the empty value too), and is fresh
/// again.
pub proof fn lemma_session_put_then_get(
    w: nat,
    topic: Seq<u8>,
    key: Seq<u8>,
    value: Seq<u8>,
    m: CacheView,
)
    requires
        w <= 3,
        topic.len() < 256,
        key.len() < 256,
        value.len() < pow256(w),
        !(m.contains_key(text(topic)) && m[text(topic)].contains_key(text(key))),
    ensures
        ({
            let fresh = SessionView { data: Seq::empty(), required: 1, signal: Signal::Idle };
            let (s, m2, r) = receive_spec(
                fresh,
                put_request(w, topic, key, value) + get_request(topic, key),
                m,
            );
            &&& r == seq![ReplyView::Value(text(value))]
            &&& m2 == crate::cache::put_spec(m, text(topic), text(key), text(value))
            &&& s == fresh
        }),
{
    let bytes = put_request(w, topic, key, value) + get_request(topic, key);
    assert(Seq::<u8>::empty() + bytes =~= bytes);
    lemma_put_then_get(w, topic, key, value, m);
    let d = decode(bytes, Signal::Idle, m);
    assert(d.rest =~= Seq::<u8>::empty());
}

} // verus!
