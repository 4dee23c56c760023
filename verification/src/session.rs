//! Per-session broker state.
//!
//! A [`ClientReceiver`] models one client conversation: the queue of reply
//! payloads awaiting the HTTP handler, and the expiry deadline the janitor
//! checks. A [`ServerSender`] models one connected content server: the queue
//! of outbound frames awaiting the socket's write loop, and the set of client
//! keys that have exchanged traffic over this server.
//!
//! All deadlines are seconds; the clock is handed in by the caller.

use vstd::prelude::*;

verus! {

/// Capacity of one client's reply queue, in payloads.
pub const REPLY_QUEUE_CAP: usize = 64;

/// Capacity of one server's outbound queue, in frames.
pub const OUTBOUND_QUEUE_CAP: usize = 256;

/// Initial time-to-live of a fresh client session, in seconds.
pub const FRESH_TTL_SECS: u64 = 10;

/// Time-to-live granted when a session is touched after it already expired.
pub const REVIVE_TTL_SECS: u64 = 30;

/// Extension granted when the deadline is near (less than the near window).
pub const NEAR_EXTEND_SECS: u64 = 10;

/// Extension granted when the deadline is comfortably ahead.
pub const FAR_EXTEND_SECS: u64 = 5;

/// Width of the "deadline is near" window, in seconds.
pub const NEAR_WINDOW_SECS: u64 = 9;

/// Addition on deadlines, capped at the largest representable instant.
pub open spec fn sat_add64(a: u64, b: u64) -> u64 {
    if a + b <= u64::MAX {
        (a + b) as u64
    } else {
        u64::MAX
    }
}

/// Executable saturating addition matching [`sat_add64`].
pub fn sat_add_u64(a: u64, b: u64) -> (r: u64)
    ensures
        r == sat_add64(a, b),
{
    if a <= u64::MAX - b {
        a + b
    } else {
        u64::MAX
    }
}

/// The deadline after a touch: a session found expired gets a fresh
/// [`REVIVE_TTL_SECS`] window from now; one whose deadline is near is pushed
/// by [`NEAR_EXTEND_SECS`]; a comfortable one by [`FAR_EXTEND_SECS`].
pub open spec fn touch_at(expired_at: u64, now: u64) -> u64 {
    if expired_at <= now {
        sat_add64(now, REVIVE_TTL_SECS)
    } else if expired_at - now < NEAR_WINDOW_SECS {
        sat_add64(expired_at, NEAR_EXTEND_SECS)
    } else {
        sat_add64(expired_at, FAR_EXTEND_SECS)
    }
}

/// A queue after a delivery: the payload is appended unless the queue is
/// full, in which case it is dropped.
pub open spec fn deliver_spec(q: Seq<Seq<u8>>, payload: Seq<u8>) -> Seq<Seq<u8>> {
    if q.len() < REPLY_QUEUE_CAP {
        q.push(payload)
    } else {
        q
    }
}

/// An attachment set after an attach: the key is appended unless already
/// there.
pub open spec fn attach_spec(s: Seq<Seq<u8>>, k: Seq<u8>) -> Seq<Seq<u8>> {
    if s.contains(k) {
        s
    } else {
        s.push(k)
    }
}

/// The views of a sequence of byte vectors.
pub open spec fn byte_seqs(v: Seq<Vec<u8>>) -> Seq<Seq<u8>> {
    Seq::new(v.len(), |i: int| v[i]@)
}

/// One broker-level WebSocket message.
#[derive(Debug, Clone)]
pub enum ProxyMessage {
    Text(Vec<u8>),
    Binary(Vec<u8>),
}

/// One client conversation: its pending replies and its expiry deadline.
pub struct ClientReceiver {
    /// Reply payloads delivered by the server and not yet taken by the HTTP
    /// handler, oldest first.
    pub queue: Vec<Vec<u8>>,
    /// The instant, in seconds, after which the janitor may evict this
    /// session.
    pub expired_at: u64,
}

impl ClientReceiver {
    /// The queued reply payloads, oldest first.
    pub open spec fn replies(self) -> Seq<Seq<u8>> {
        byte_seqs(self.queue@)
    }

    /// A new session expires [`FRESH_TTL_SECS`] from now.
    pub fn new(now: u64) -> (r: ClientReceiver)
        ensures
            r.replies() == Seq::<Seq<u8>>::empty(),
            r.expired_at == sat_add64(now, FRESH_TTL_SECS),
    {
        let r = ClientReceiver { queue: Vec::new(), expired_at: sat_add_u64(now, FRESH_TTL_SECS) };
        proof {
            assert(r.replies() =~= Seq::<Seq<u8>>::empty());
        }
        r
    }

    /// The queued replies, for a caller that wants to look without taking.
    pub fn receiver(&self) -> (r: &Vec<Vec<u8>>)
        ensures
            byte_seqs(r@) == self.replies(),
    {
        &self.queue
    }

    /// A session is expired once the clock has passed its deadline.
    pub fn expired(&self, now: u64) -> (r: bool)
        ensures
            r == (now > self.expired_at),
    {
        now > self.expired_at
    }

    /// Restarts the deadline at [`REVIVE_TTL_SECS`] from now.
    pub fn reset_exipred_at(&mut self, now: u64)
        ensures
            final(self).expired_at == sat_add64(now, REVIVE_TTL_SECS),
            final(self).queue == old(self).queue,
    {
        self.expired_at = sat_add_u64(now, REVIVE_TTL_SECS);
    }

    /// Pushes the deadline out: by the given delay, or, when none is given,
    /// by [`NEAR_EXTEND_SECS`] provided the deadline has not fallen more than
    /// [`NEAR_WINDOW_SECS`] behind the clock.
    pub fn delay_expired_at(&mut self, now: u64, delay: Option<u64>)
        ensures
            final(self).queue == old(self).queue,
            match delay {
                Some(d) => final(self).expired_at == sat_add64(old(self).expired_at, d),
                None => final(self).expired_at == if sat_add64(old(self).expired_at, NEAR_WINDOW_SECS) > now {
                    sat_add64(old(self).expired_at, NEAR_EXTEND_SECS)
                } else {
                    old(self).expired_at
                },
            },
    {
        match delay {
            Some(d) => {
                self.expired_at = sat_add_u64(self.expired_at, d);
            },
            None => {
                if sat_add_u64(self.expired_at, NEAR_WINDOW_SECS) > now {
                    self.expired_at = sat_add_u64(self.expired_at, NEAR_EXTEND_SECS);
                }
            },
        }
    }

    /// Extends the deadline on client activity. A session found expired gets
    /// a generous [`REVIVE_TTL_SECS`] window; one whose deadline is near is
    /// nudged by [`NEAR_EXTEND_SECS`]; a comfortable one by
    /// [`FAR_EXTEND_SECS`]. The asymmetry — a generous window for the nearly
    /// dead, a small nudge for the comfortable — is deliberate; downstream
    /// timing depends on it. The deadline never moves backwards.
    pub fn touch(&mut self, now: u64)
        ensures
            final(self).queue == old(self).queue,
            final(self).expired_at == touch_at(old(self).expired_at, now),
            final(self).expired_at >= old(self).expired_at,
    {
        if self.expired_at <= now {
            self.reset_exipred_at(now);
        } else if self.expired_at - now < NEAR_WINDOW_SECS {
            self.delay_expired_at(now, Some(NEAR_EXTEND_SECS));
        } else {
            self.delay_expired_at(now, Some(FAR_EXTEND_SECS));
        }
    }

    /// Queues one reply payload for the waiting HTTP handler. A payload that
    /// finds the queue full is dropped; delivery never touches the deadline.
    pub fn deliver(&mut self, payload: Vec<u8>)
        ensures
            final(self).expired_at == old(self).expired_at,
            old(self).replies().len() < REPLY_QUEUE_CAP ==> final(self).replies() == old(
                self,
            ).replies().push(payload@),
            old(self).replies().len() >= REPLY_QUEUE_CAP ==> final(self).replies() == old(
                self,
            ).replies(),
    {
        if self.queue.len() < REPLY_QUEUE_CAP {
            self.queue.push(payload);
            proof {
                assert(self.replies() =~= old(self).replies().push(payload@));
            }
        }
    }

    /// Takes the oldest queued reply payload, if any.
    pub fn take_message(&mut self) -> (r: Option<Vec<u8>>)
        ensures
            final(self).expired_at == old(self).expired_at,
            old(self).replies().len() == 0 ==> r is None && final(self).replies() == old(
                self,
            ).replies(),
            old(self).replies().len() > 0 ==> (r matches Some(p) && p@ == old(self).replies()[0]
                && final(self).replies() == old(self).replies().drop_first()),
    {
        if self.queue.len() == 0 {
            None
        } else {
            let p = self.queue.remove(0);
            proof {
                assert(self.replies() =~= old(self).replies().drop_first());
            }
            Some(p)
        }
    }
}

/// One connected content server: its outbound frames and attached clients.
pub struct ServerSender {
    /// Frames awaiting the socket's write loop, oldest first.
    pub outbound: Vec<ProxyMessage>,
    /// Client keys that have exchanged traffic over this server, each once.
    pub client_keys: Vec<Vec<u8>>,
}

impl ServerSender {
    /// The outbound frames, oldest first.
    pub open spec fn pending(self) -> Seq<ProxyMessage> {
        self.outbound@
    }

    /// The attached client keys.
    pub open spec fn attached(self) -> Seq<Seq<u8>> {
        byte_seqs(self.client_keys@)
    }

    /// Attached keys are listed once each.
    pub open spec fn wf(self) -> bool {
        forall|i: int, j: int|
            0 <= i < j < self.attached().len() ==> self.attached()[i] != self.attached()[j]
    }

    /// A fresh session with nothing queued and nobody attached.
    pub fn new() -> (r: ServerSender)
        ensures
            r.pending() == Seq::<ProxyMessage>::empty(),
            r.attached() == Seq::<Seq<u8>>::empty(),
            r.wf(),
    {
        let r = ServerSender { outbound: Vec::new(), client_keys: Vec::new() };
        proof {
            assert(r.attached() =~= Seq::<Seq<u8>>::empty());
        }
        r
    }

    /// Attaches a client key; attaching an already attached key changes
    /// nothing.
    pub fn add_client_key(&mut self, client_key: &Vec<u8>)
        requires
            old(self).wf(),
        ensures
            final(self).wf(),
            final(self).pending() == old(self).pending(),
            old(self).attached().contains(client_key@) ==> final(self).attached() == old(
                self,
            ).attached(),
            !old(self).attached().contains(client_key@) ==> final(self).attached() == old(
                self,
            ).attached().push(client_key@),
            final(self).attached().contains(client_key@),
    {
        let mut i: usize = 0;
        while i < self.client_keys.len()
            invariant
                old(self).wf(),
                i <= self.client_keys@.len(),
                *self == *old(self),
                forall|j: int| 0 <= j < i ==> old(self).attached()[j] != client_key@,
            decreases self.client_keys@.len() - i,
        {
            if vec_u8_eq(&self.client_keys[i], client_key) {
                proof {
                    assert(old(self).attached()[i as int] == client_key@);
                }
                return ;
            }
            i = i + 1;
        }
        proof {
            assert(forall|j: int|
                0 <= j < old(self).attached().len() ==> old(self).attached()[j] != client_key@);
            assert(!old(self).attached().contains(client_key@));
        }
        self.client_keys.push(client_key.clone());
        proof {
            assert(self.attached() =~= old(self).attached().push(client_key@));
            assert(self.attached().last() == client_key@);
        }
    }

    /// Queues one frame for the write loop. A frame that finds the queue full
    /// is refused so the caller can report backpressure.
    pub fn send(&mut self, frame: ProxyMessage) -> (r: Result<(), ()>)
        ensures
            final(self).client_keys == old(self).client_keys,
            old(self).pending().len() < OUTBOUND_QUEUE_CAP ==> r is Ok && final(self).pending()
                == old(self).pending().push(frame),
            old(self).pending().len() >= OUTBOUND_QUEUE_CAP ==> r is Err && final(self).pending()
                == old(self).pending(),
    {
        if self.outbound.len() < OUTBOUND_QUEUE_CAP {
            self.outbound.push(frame);
            Ok(())
        } else {
            Err(())
        }
    }

    /// Takes the oldest queued frame, if any; frames leave in the order they
    /// were queued.
    pub fn take_outbound(&mut self) -> (r: Option<ProxyMessage>)
        ensures
            final(self).client_keys == old(self).client_keys,
            old(self).pending().len() == 0 ==> r is None && final(self).pending() == old(
                self,
            ).pending(),
            old(self).pending().len() > 0 ==> (r matches Some(f) && f == old(self).pending()[0]
                && final(self).pending() == old(self).pending().drop_first()),
    {
        if self.outbound.len() == 0 {
            None
        } else {
            Some(self.outbound.remove(0))
        }
    }

    /// Hands back every attached client key and forgets them, for the
    /// teardown cascade.
    pub fn detach_all(&mut self) -> (r: Vec<Vec<u8>>)
        ensures
            byte_seqs(r@) == old(self).attached(),
            final(self).attached() == Seq::<Seq<u8>>::empty(),
            final(self).pending() == old(self).pending(),
    {
        let mut out: Vec<Vec<u8>> = Vec::new();
        core::mem::swap(&mut out, &mut self.client_keys);
        proof {
            assert(self.attached() =~= Seq::<Seq<u8>>::empty());
        }
        out
    }
}

/// Byte-vector equality, stated over the views.
pub fn vec_u8_eq(a: &Vec<u8>, b: &Vec<u8>) -> (r: bool)
    ensures
        r == (a@ == b@),
{
    if a.len() != b.len() {
        return false;
    }
    let mut i: usize = 0;
    while i < a.len()
        invariant
            i <= a@.len(),
            a@.len() == b@.len(),
            forall|j: int| 0 <= j < i ==> a@[j] == b@[j],
        decreases a@.len() - i,
    {
        if a[i] != b[i] {
            return false;
        }
        i = i + 1;
    }
    proof {
        assert(a@ =~= b@);
    }
    true
}

} // verus!
