//! The HTTP side of the broker: request admission and reply assembly.
//!
//! One client POST is admitted by [`client_data_request`]: header keys are
//! checked, the server session looked up, the client session opened or
//! touched, the body framed and queued for the server's write loop. The
//! handler then waits on the client's reply queue, feeding each delivered
//! payload to a [`ReplyCollector`] until the accumulated body ends with the
//! four-byte sentinel, the deadline fires, or the server goes away. The
//! waiting itself is the caller's (it owns the clock and the queue polling);
//! every decision along the way is here.

use vstd::prelude::*;
use vstd::string::StringExecFns;

use crate::codec;
use crate::codec::has_sentinel_suffix;
use crate::registry::AppState;
use crate::session::{ServerSender, OUTBOUND_QUEUE_CAP};

verus! {

/// How long the handler waits for a complete reply, in seconds.
pub const REPLY_DEADLINE_SECS: u64 = 60;

/// The JSON error envelope carried on broker error responses. Whatever the
/// HTTP status code, the envelope's own status field is 403: that is the
/// established wire contract.
pub open spec fn envelope_spec(message: Seq<char>) -> Seq<char> {
    "{\"version\":1,\"status\":403,\"data\":{\"Error\":{\"message\":\""@ + message + "\"}}}"@
}

/// Builds the JSON error envelope around a message.
pub fn error_envelope(message: &str) -> (r: String)
    ensures
        r@ == envelope_spec(message@),
{
    let mut s = String::from_str("{\"version\":1,\"status\":403,\"data\":{\"Error\":{\"message\":\"");
    s.append(message);
    s.append("\"}}}");
    s
}

/// One HTTP response of the broker, by outcome.
#[derive(Debug)]
pub enum TunnelResponse {
    /// 200: the assembled reply body, sentinel stripped.
    Success(Vec<u8>),
    /// 400: a missing or malformed header.
    BadRequest(String),
    /// 404: no server session under the key; the envelope says 403.
    Offline(String),
    /// 502: the server's outbound queue would not take the frame.
    Backpressure(String),
    /// 504: the reply deadline fired; the envelope says 403.
    TimedOut(String),
    /// 403: the server session closed while the reply was awaited.
    Gone(String),
}

impl TunnelResponse {
    /// The HTTP status code of this outcome.
    pub open spec fn spec_status(self) -> int {
        match self {
            TunnelResponse::Success(_) => 200,
            TunnelResponse::BadRequest(_) => 400,
            TunnelResponse::Offline(_) => 404,
            TunnelResponse::Backpressure(_) => 502,
            TunnelResponse::TimedOut(_) => 504,
            TunnelResponse::Gone(_) => 403,
        }
    }

    /// The HTTP status code of this outcome.
    pub fn status_code(&self) -> (r: u16)
        ensures
            r == self.spec_status(),
    {
        match self {
            TunnelResponse::Success(_) => 200,
            TunnelResponse::BadRequest(_) => 400,
            TunnelResponse::Offline(_) => 404,
            TunnelResponse::Backpressure(_) => 502,
            TunnelResponse::TimedOut(_) => 504,
            TunnelResponse::Gone(_) => 403,
        }
    }
}

/// The 404 response for a key with no server session behind it.
pub fn offline_response() -> (r: TunnelResponse)
    ensures
        r matches TunnelResponse::Offline(b) && b@ == envelope_spec(
            "share key may be off line"@,
        ),
{
    TunnelResponse::Offline(error_envelope("share key may be off line"))
}

/// The 504 response for a reply that never completed within the deadline.
pub fn timeout_response() -> (r: TunnelResponse)
    ensures
        r matches TunnelResponse::TimedOut(b) && b@ == envelope_spec(
            "receiving data from server time out"@,
        ),
{
    TunnelResponse::TimedOut(error_envelope("receiving data from server time out"))
}

/// The 403 response for a server that closed while the reply was awaited.
pub fn gone_response() -> (r: TunnelResponse)
    ensures
        r matches TunnelResponse::Gone(b) && b@ == envelope_spec(
            "server connection closed"@,
        ),
{
    TunnelResponse::Gone(error_envelope("server connection closed"))
}

/// The greeting served at the root path.
pub fn welcome_body() -> (r: String)
    ensures
        r@ == "Welcome To Use File Tunnel"@,
{
    String::from_str("Welcome To Use File Tunnel")
}

/// What a collector's body and done flag become after one delivered chunk:
/// an empty chunk changes nothing; otherwise the chunk is appended, and if
/// the body then ends with the sentinel, the sentinel is stripped and the
/// reply is complete.
pub open spec fn push_chunk_spec(body: Seq<u8>, chunk: Seq<u8>) -> (Seq<u8>, bool) {
    if chunk.len() == 0 {
        (body, false)
    } else {
        let b = body + chunk;
        if has_sentinel_suffix(b) {
            (b.take(b.len() - 4), true)
        } else {
            (b, false)
        }
    }
}

/// Accumulates the reply payloads delivered for one request until the
/// sentinel arrives.
pub struct ReplyCollector {
    /// The bytes accumulated so far; once done, the sentinel is stripped.
    pub body: Vec<u8>,
    /// Whether the sentinel has been seen.
    pub done: bool,
}

impl ReplyCollector {
    /// An empty collector.
    pub fn new() -> (r: ReplyCollector)
        ensures
            r.body@ == Seq::<u8>::empty(),
            !r.done,
    {
        let r = ReplyCollector { body: Vec::new(), done: false };
        proof {
            assert(r.body@ =~= Seq::<u8>::empty());
        }
        r
    }

    /// Feeds one delivered payload into the body, per [`push_chunk_spec`].
    pub fn push_chunk(&mut self, chunk: &Vec<u8>)
        requires
            !old(self).done,
        ensures
            (final(self).body@, final(self).done) == push_chunk_spec(old(self).body@, chunk@),
    {
        if chunk.len() == 0 {
            return ;
        }
        codec::push_all(&mut self.body, chunk);
        if codec::ends_with_sentinel(&self.body) {
            let n = self.body.len();
            self.body.truncate(n - 4);
            self.done = true;
            proof {
                assert(self.body@ =~= (old(self).body@ + chunk@).take(
                    (old(self).body@ + chunk@).len() - 4,
                ));
            }
        }
    }
}

/// The concatenation of a sequence of chunks.
pub open spec fn concat_chunks(chunks: Seq<Seq<u8>>) -> Seq<u8>
    decreases chunks.len(),
{
    if chunks.len() == 0 {
        Seq::empty()
    } else {
        chunks[0] + concat_chunks(chunks.drop_first())
    }
}

/// What assembling a reply from delivered chunks yields, starting from an
/// already accumulated body: the chunks are fed in order until one completes
/// the reply; if none does, there is no reply yet.
pub open spec fn collect_spec(body: Seq<u8>, chunks: Seq<Seq<u8>>) -> Option<Seq<u8>>
    decreases chunks.len(),
{
    if chunks.len() == 0 {
        None
    } else {
        let step = push_chunk_spec(body, chunks[0]);
        if step.1 {
            Some(step.0)
        } else {
            collect_spec(step.0, chunks.drop_first())
        }
    }
}

/// Assembles one reply from the payloads delivered for it, in delivery
/// order: the accumulated body is complete once it ends with the sentinel,
/// which is stripped. Returns nothing when the chunks never complete a
/// reply.
pub fn assemble_reply(chunks: &Vec<Vec<u8>>) -> (r: Option<Vec<u8>>)
    ensures
        match r {
            Some(b) => collect_spec(Seq::empty(), crate::session::byte_seqs(chunks@)) matches
                Some(s) && s == b@,
            None => collect_spec(Seq::empty(), crate::session::byte_seqs(chunks@)) is None,
        },
{
    let ghost all = crate::session::byte_seqs(chunks@);
    let mut collector = ReplyCollector::new();
    let mut i: usize = 0;
    proof {
        assert(all.skip(0) =~= all);
    }
    while i < chunks.len()
        invariant
            i <= chunks@.len(),
            all == crate::session::byte_seqs(chunks@),
            !collector.done,
            collect_spec(Seq::empty(), all) == collect_spec(collector.body@, all.skip(i as int)),
        decreases chunks@.len() - i,
    {
        collector.push_chunk(&chunks[i]);
        proof {
            assert(all.skip(i as int).drop_first() =~= all.skip(i + 1));
            assert(all.skip(i as int)[0] == chunks@[i as int]@);
        }
        if collector.done {
            proof {
                assert(collect_spec(Seq::empty(), all) matches Some(b) && b == collector.body@);
            }
            return Some(collector.body);
        }
        i = i + 1;
    }
    proof {
        assert(all.skip(chunks@.len() as int) =~= Seq::<Seq<u8>>::empty());
    }
    None
}


/// One step of sentinel-termination reasoning: feeding chunks into a body
/// that never reaches the sentinel before the last chunk yields the whole
/// accumulation with the sentinel stripped.
proof fn lemma_collect_appends(body: Seq<u8>, chunks: Seq<Seq<u8>>)
    requires
        chunks.len() > 0,
        forall|i: int| 0 <= i < chunks.len() ==> #[trigger] chunks[i].len() > 0,
        forall|i: int|
            0 < i < chunks.len() ==> !has_sentinel_suffix(
                body + concat_chunks(#[trigger] chunks.take(i)),
            ),
        has_sentinel_suffix(body + concat_chunks(chunks)),
    ensures
        collect_spec(body, chunks) == Some(
            (body + concat_chunks(chunks)).take((body + concat_chunks(chunks)).len() - 4),
        ),
    decreases chunks.len(),
{
    let c = chunks[0];
    let b = body + c;
    if chunks.len() == 1 {
        assert(concat_chunks(chunks.drop_first()) == Seq::<u8>::empty());
        assert(concat_chunks(chunks) =~= c);
        assert(body + concat_chunks(chunks) =~= b);
        assert(has_sentinel_suffix(b));
        assert(collect_spec(body, chunks) == Some(b.take(b.len() - 4)));
        assert(b.take(b.len() - 4) =~= (body + concat_chunks(chunks)).take(
            (body + concat_chunks(chunks)).len() - 4,
        ));
    } else {
        let rest = chunks.drop_first();
        assert(chunks.take(1) =~= seq![c]);
        assert(concat_chunks(chunks.take(1)) =~= c) by {
            reveal_with_fuel(concat_chunks, 2);
            assert(chunks.take(1).drop_first() =~= Seq::<Seq<u8>>::empty());
        }
        assert(!has_sentinel_suffix(b)) by {
            assert(!has_sentinel_suffix(body + concat_chunks(chunks.take(1))));
            assert(body + concat_chunks(chunks.take(1)) =~= b);
        }
        assert(collect_spec(body, chunks) == collect_spec(b, rest));
        assert forall|i: int|
            0 < i < rest.len() implies !has_sentinel_suffix(
            b + concat_chunks(#[trigger] rest.take(i)),
        ) by {
            assert(chunks.take(i + 1).drop_first() =~= rest.take(i));
            assert(chunks.take(i + 1)[0] == c);
            assert(concat_chunks(chunks.take(i + 1)) == c + concat_chunks(rest.take(i)));
            assert(body + concat_chunks(chunks.take(i + 1)) =~= b + concat_chunks(rest.take(i)));
            assert(!has_sentinel_suffix(body + concat_chunks(chunks.take(i + 1))));
        }
        assert(concat_chunks(chunks) == c + concat_chunks(rest));
        assert(b + concat_chunks(rest) =~= body + concat_chunks(chunks));
        lemma_collect_appends(b, rest);
    }
}

/// Sentinel termination: the assembled reply is exactly the concatenation of
/// the delivered payloads with the trailing four NUL bytes stripped,
/// whatever the chunking, provided no accumulated boundary short of the
/// whole already ends with the sentinel (four NUL bytes falling exactly on
/// an earlier chunk boundary end the reply there: an in-band terminator
/// cannot tell such a prefix apart).
pub proof fn lemma_sentinel_termination(chunks: Seq<Seq<u8>>)
    requires
        chunks.len() > 0,
        forall|i: int| 0 <= i < chunks.len() ==> #[trigger] chunks[i].len() > 0,
        forall|i: int|
            0 < i < chunks.len() ==> !has_sentinel_suffix(
                concat_chunks(#[trigger] chunks.take(i)),
            ),
        has_sentinel_suffix(concat_chunks(chunks)),
    ensures
        collect_spec(Seq::empty(), chunks) == Some(
            concat_chunks(chunks).take(concat_chunks(chunks).len() - 4),
        ),
{
    assert forall|i: int|
        0 < i < chunks.len() implies !has_sentinel_suffix(
        Seq::<u8>::empty() + concat_chunks(#[trigger] chunks.take(i)),
    ) by {
        assert(Seq::<u8>::empty() + concat_chunks(chunks.take(i)) =~= concat_chunks(
            chunks.take(i),
        ));
    }
    assert(Seq::<u8>::empty() + concat_chunks(chunks) =~= concat_chunks(chunks));
    lemma_collect_appends(Seq::<u8>::empty(), chunks);
    assert((Seq::<u8>::empty() + concat_chunks(chunks)).take(
        (Seq::<u8>::empty() + concat_chunks(chunks)).len() - 4,
    ) =~= concat_chunks(chunks).take(concat_chunks(chunks).len() - 4));
}

/// Admits one client POST: rejects empty or overlong header keys, answers
/// 404 when no server session lives under the key, and otherwise opens or
/// touches the client session (never before the server is validated, always
/// before the frame is queued), remembers the client key as this server's
/// traffic, frames the body with the client key, and queues the frame for
/// the server's write loop. A full outbound queue is reported as
/// backpressure. On success the caller then awaits the reply until
/// [`REPLY_DEADLINE_SECS`] passes.
pub fn client_data_request(
    state: &mut AppState,
    server_key: &Vec<u8>,
    client_key: &Vec<u8>,
    body: &Vec<u8>,
    now: u64,
) -> (r: Result<(), TunnelResponse>)
    requires
        old(state).wf(),
    ensures
        final(state).wf(),
        (server_key@.len() == 0 || client_key@.len() == 0 || client_key@.len() > 255) ==> (
        r matches Err(resp) && resp matches TunnelResponse::BadRequest(_) && *final(state)
            == *old(state)),
        server_key@.len() > 0 && codec::valid_key(client_key@) && !old(state).has_server(
            server_key@,
        ) ==> ((r matches Err(resp) && resp matches TunnelResponse::Offline(m) && m@
            == envelope_spec("share key may be off line"@)) && *final(state) == *old(state)),
        server_key@.len() > 0 && codec::valid_key(client_key@) && old(state).has_server(
            server_key@,
        ) ==> {
            &&& final(state).has_client(client_key@)
            &&& (!old(state).has_client(client_key@) ==> final(state).client_at(
                client_key@,
            ).replies() == Seq::<Seq<u8>>::empty() && final(state).client_at(client_key@).expired_at
                == crate::session::touch_at(
                crate::session::sat_add64(now, crate::session::FRESH_TTL_SECS),
                now,
            ))
            &&& (old(state).has_client(client_key@) ==> final(state).client_at(
                client_key@,
            ).replies() == old(state).client_at(client_key@).replies() && final(state).client_at(
                client_key@,
            ).expired_at == crate::session::touch_at(
                old(state).client_at(client_key@).expired_at,
                now,
            ))
            &&& (forall|k: Seq<u8>|
                k != client_key@ ==> #[trigger] final(state).has_client(k) == old(state).has_client(k))
            &&& (forall|k: Seq<u8>|
                k != client_key@ && old(state).has_client(k) ==> #[trigger] final(state).client_at(
                    k,
                ) == old(state).client_at(k))
            &&& (forall|k: Seq<u8>| #[trigger]
                final(state).has_server(k) == old(state).has_server(k))
            &&& (forall|k: Seq<u8>|
                k != server_key@ && old(state).has_server(k) ==> #[trigger] final(state).server_at(
                    k,
                ) == old(state).server_at(k))
            &&& final(state).server_at(server_key@).attached() == crate::session::attach_spec(
                old(state).server_at(server_key@).attached(),
                client_key@,
            )
            &&& (old(state).server_at(server_key@).pending().len() < OUTBOUND_QUEUE_CAP ==> (
            r is Ok && final(state).server_at(server_key@).pending().drop_last() == old(state).server_at(server_key@).pending() && (final(state).server_at(
                server_key@,
            ).pending().last() matches crate::session::ProxyMessage::Text(m) && m@
                == codec::encode_text_spec(client_key@, body@))))
            &&& (old(state).server_at(server_key@).pending().len() >= OUTBOUND_QUEUE_CAP ==> (
            r matches Err(resp) && resp matches TunnelResponse::Backpressure(_) && final(state).server_at(server_key@).pending() == old(state).server_at(server_key@).pending()))
        },
{
    if server_key.len() == 0 || client_key.len() == 0 {
        return Err(TunnelResponse::BadRequest(String::from_str("server key must be required")));
    }
    if client_key.len() > 255 {
        return Err(TunnelResponse::BadRequest(String::from_str("client key is invalid")));
    }
    let server_known = match state.get_server_sender(server_key) {
        Some(_) => true,
        None => false,
    };
    if !server_known {
        return Err(offline_response());
    }
    state.client_open(client_key, now);
    let ghost mid = *state;
    state.server_attach_client(server_key, client_key);
    let ghost mid2 = *state;
    let framed = match codec::encode_request_text(client_key, body) {
        Ok(f) => f,
        Err(_) => {
            return Err(TunnelResponse::BadRequest(String::from_str("client key is invalid")));
        },
    };
    let sent = state.server_send_text(server_key, &framed);
    proof {
        let pre = *old(state);
        let post = *state;
        assert(mid.servers == pre.servers);
        assert(mid.has_server(server_key@));
        assert(mid.server_at(server_key@) == pre.server_at(server_key@));
        assert(mid2.has_server(server_key@) == mid.has_server(server_key@));
        assert forall|k: Seq<u8>| #[trigger] post.has_server(k) == pre.has_server(k) by {
            assert(post.has_server(k) == mid2.has_server(k));
            assert(mid2.has_server(k) == mid.has_server(k));
            assert(mid.has_server(k) == pre.has_server(k));
        }
        assert forall|k: Seq<u8>|
            k != server_key@ && pre.has_server(k) implies #[trigger] post.server_at(k)
                == pre.server_at(k) by {
            assert(mid.has_server(k) == pre.has_server(k));
            assert(mid.server_at(k) == pre.server_at(k));
            assert(mid2.has_server(k) == mid.has_server(k));
            assert(mid2.server_at(k) == mid.server_at(k));
            assert(post.server_at(k) == mid2.server_at(k));
        }
        assert(mid2.server_at(server_key@).pending() == pre.server_at(server_key@).pending());
        assert(mid2.server_at(server_key@).attached() == crate::session::attach_spec(
            pre.server_at(server_key@).attached(),
            client_key@,
        ));
        assert(post.server_at(server_key@).attached() == mid2.server_at(server_key@).attached());
        assert(mid2.clients == mid.clients);
        assert(post.clients == mid2.clients);
        assert forall|k: Seq<u8>|
            k != client_key@ implies #[trigger] post.has_client(k) == pre.has_client(k) by {
            assert(post.has_client(k) == mid.has_client(k));
            assert(mid.has_client(k) == pre.has_client(k));
        }
        assert(post.has_client(client_key@)) by {
            assert(post.has_client(client_key@) == mid.has_client(client_key@));
            assert(mid.has_client(client_key@));
        }
        assert forall|k: Seq<u8>|
            k != client_key@ && pre.has_client(k) implies #[trigger] post.client_at(k)
                == pre.client_at(k) by {
            assert(post.has_client(k) == mid.has_client(k));
            assert(mid.has_client(k) == pre.has_client(k));
            assert(post.client_at(k) == mid.client_at(k));
            assert(mid.client_at(k) == pre.client_at(k));
        }
        assert(post.client_at(client_key@) == mid.client_at(client_key@));
    }
    match sent {
        Ok(()) => Ok(()),
        Err(_) => Err(
            TunnelResponse::Backpressure(error_envelope("server outbound queue is full")),
        ),
    }
}


/// Why a server upgrade is refused.
#[derive(Debug)]
pub enum UpgradeRefusal {
    /// 400: the upgrade carried no server key.
    MissingKey,
    /// 409: a server session already lives under the key; the newcomer is
    /// turned away and the first session keeps the key.
    Conflict,
}

impl UpgradeRefusal {
    /// The HTTP status code of this refusal.
    pub open spec fn spec_status(self) -> int {
        match self {
            UpgradeRefusal::MissingKey => 400,
            UpgradeRefusal::Conflict => 409,
        }
    }

    /// The HTTP status code of this refusal.
    pub fn status_code(&self) -> (r: u16)
        ensures
            r == self.spec_status(),
    {
        match self {
            UpgradeRefusal::MissingKey => 400,
            UpgradeRefusal::Conflict => 409,
        }
    }

    /// The response body of this refusal.
    pub fn body(&self) -> (r: String)
        ensures
            self is MissingKey ==> r@ == "server key must be required"@,
            self is Conflict ==> r@ == "server key already connected"@,
    {
        match self {
            UpgradeRefusal::MissingKey => String::from_str("server key must be required"),
            UpgradeRefusal::Conflict => String::from_str("server key already connected"),
        }
    }
}

/// Admits one server upgrade: an upgrade without a key is refused, a key
/// already taken keeps its session and the newcomer is refused with a
/// conflict, and otherwise the offered session is registered under the key.
pub fn server_upgrade_request(
    state: &mut AppState,
    server_key: &Vec<u8>,
    sender: ServerSender,
) -> (r: Result<(), UpgradeRefusal>)
    requires
        old(state).wf(),
        sender.wf(),
    ensures
        final(state).wf(),
        server_key@.len() == 0 ==> (r matches Err(e) && e is MissingKey && *final(state) == *old(state)),
        server_key@.len() > 0 && old(state).has_server(server_key@) ==> (r matches Err(e)
            && e is Conflict && *final(state) == *old(state)),
        server_key@.len() > 0 && !old(state).has_server(server_key@) ==> (r is Ok && final(state).has_server(server_key@) && final(state).server_at(server_key@) == sender && final(state).clients == old(state).clients && (forall|k: Seq<u8>|
            k != server_key@ ==> #[trigger] final(state).has_server(k) == old(state).has_server(k))
            && (forall|k: Seq<u8>|
            k != server_key@ && old(state).has_server(k) ==> #[trigger] final(state).server_at(k)
                == old(state).server_at(k))),
{
    if server_key.len() == 0 {
        return Err(UpgradeRefusal::MissingKey);
    }
    let taken = match state.get_server_sender(server_key) {
        Some(_) => true,
        None => false,
    };
    if taken {
        return Err(UpgradeRefusal::Conflict);
    }
    state.server_open(server_key, sender);
    Ok(())
}

/// What the waiting handler does with one look at its conversation: a
/// complete body answers 200; a session gone mid-wait (the server closed,
/// or the janitor evicted it) answers 403; a passed deadline answers 504;
/// otherwise the wait goes on with the collector as it was.
pub fn await_decision(
    collector: ReplyCollector,
    session_live: bool,
    now: u64,
    deadline: u64,
) -> (r: Result<ReplyCollector, TunnelResponse>)
    ensures
        collector.done ==> (r matches Err(resp) && (resp matches TunnelResponse::Success(b) && b@
            == collector.body@)),
        !collector.done && !session_live ==> (r matches Err(resp) && (resp matches
            TunnelResponse::Gone(b) && b@ == envelope_spec("server connection closed"@))),
        !collector.done && session_live && now > deadline ==> (r matches Err(resp) && (resp matches
            TunnelResponse::TimedOut(b) && b@ == envelope_spec(
            "receiving data from server time out"@,
        ))),
        !collector.done && session_live && now <= deadline ==> (r matches Ok(c) && c == collector),
{
    if collector.done {
        Err(TunnelResponse::Success(collector.body))
    } else if !session_live {
        Err(gone_response())
    } else if now > deadline {
        Err(timeout_response())
    } else {
        Ok(collector)
    }
}

} // verus!
