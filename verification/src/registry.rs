//! The process-wide directory of live sessions.
//!
//! An [`AppState`] owns two mappings: server key to [`ServerSender`] and
//! client key to [`ClientReceiver`]. All membership changes go through it:
//! sessions open and close here, the janitor evicts expired clients here, and
//! the request and reply paths look their peers up here. At most one session
//! lives under a key at any instant; opening a key that is already taken
//! leaves the directory unchanged, so the caller can refuse the newcomer.

use vstd::prelude::*;

use crate::codec;
use crate::session::{ClientReceiver, ProxyMessage, ServerSender};
use crate::session::{byte_seqs, sat_add64, touch_at, FRESH_TTL_SECS, OUTBOUND_QUEUE_CAP};
use crate::util::{common_err, CommonErr, ErrKind};

verus! {

/// One registered content server.
pub struct ServerEntry {
    pub key: Vec<u8>,
    pub sender: ServerSender,
}

/// One registered client conversation.
pub struct ClientEntry {
    pub key: Vec<u8>,
    pub receiver: ClientReceiver,
}

/// The broker-wide directory of live sessions.
pub struct AppState {
    pub servers: Vec<ServerEntry>,
    pub clients: Vec<ClientEntry>,
}

/// The server keys, in registration order.
pub open spec fn server_keys_of(s: Seq<ServerEntry>) -> Seq<Seq<u8>> {
    Seq::new(s.len(), |i: int| s[i].key@)
}

/// The client keys, in registration order.
pub open spec fn client_keys_of(s: Seq<ClientEntry>) -> Seq<Seq<u8>> {
    Seq::new(s.len(), |i: int| s[i].key@)
}

/// No two entries share a key.
pub open spec fn distinct_server_keys(s: Seq<ServerEntry>) -> bool {
    forall|i: int, j: int| 0 <= i < j < s.len() ==> s[i].key@ != s[j].key@
}

/// No two entries share a key.
pub open spec fn distinct_client_keys(s: Seq<ClientEntry>) -> bool {
    forall|i: int, j: int| 0 <= i < j < s.len() ==> s[i].key@ != s[j].key@
}

impl AppState {
    pub open spec fn server_keys(self) -> Seq<Seq<u8>> {
        server_keys_of(self.servers@)
    }

    pub open spec fn client_keys(self) -> Seq<Seq<u8>> {
        client_keys_of(self.clients@)
    }

    /// A server session lives under this key.
    pub open spec fn has_server(self, k: Seq<u8>) -> bool {
        self.server_keys().contains(k)
    }

    /// A client session lives under this key.
    pub open spec fn has_client(self, k: Seq<u8>) -> bool {
        self.client_keys().contains(k)
    }

    pub open spec fn server_index(self, k: Seq<u8>) -> int {
        choose|i: int| 0 <= i < self.servers@.len() && self.servers@[i].key@ == k
    }

    pub open spec fn client_index(self, k: Seq<u8>) -> int {
        choose|i: int| 0 <= i < self.clients@.len() && self.clients@[i].key@ == k
    }

    /// The server session under a key; meaningful when [`Self::has_server`].
    pub open spec fn server_at(self, k: Seq<u8>) -> ServerSender {
        self.servers@[self.server_index(k)].sender
    }

    /// The client session under a key; meaningful when [`Self::has_client`].
    pub open spec fn client_at(self, k: Seq<u8>) -> ClientReceiver {
        self.clients@[self.client_index(k)].receiver
    }

    /// Keys are unique on both sides, and every server session is well
    /// formed: this is what makes "the session under a key" a function.
    pub open spec fn wf(self) -> bool {
        &&& distinct_server_keys(self.servers@)
        &&& distinct_client_keys(self.clients@)
        &&& forall|i: int| 0 <= i < self.servers@.len() ==> (#[trigger] self.servers@[i]).sender.wf()
    }

    /// An entry at a known index is the one the key-indexed view returns.
    pub proof fn lemma_server_entry(self, k: Seq<u8>, i: int)
        requires
            distinct_server_keys(self.servers@),
            0 <= i < self.servers@.len(),
            self.servers@[i].key@ == k,
        ensures
            self.has_server(k),
            self.server_index(k) == i,
            self.server_at(k) == self.servers@[i].sender,
    {
        assert(self.server_keys()[i] == k);
        let j = self.server_index(k);
        assert(0 <= j < self.servers@.len() && self.servers@[j].key@ == k);
    }

    /// An entry at a known index is the one the key-indexed view returns.
    pub proof fn lemma_client_entry(self, k: Seq<u8>, i: int)
        requires
            distinct_client_keys(self.clients@),
            0 <= i < self.clients@.len(),
            self.clients@[i].key@ == k,
        ensures
            self.has_client(k),
            self.client_index(k) == i,
            self.client_at(k) == self.clients@[i].receiver,
    {
        assert(self.client_keys()[i] == k);
        let j = self.client_index(k);
        assert(0 <= j < self.clients@.len() && self.clients@[j].key@ == k);
    }

    /// An empty directory.
    pub fn new() -> (r: AppState)
        ensures
            r.wf(),
            r.server_keys() == Seq::<Seq<u8>>::empty(),
            r.client_keys() == Seq::<Seq<u8>>::empty(),
    {
        let r = AppState { servers: Vec::new(), clients: Vec::new() };
        proof {
            assert(r.server_keys() =~= Seq::<Seq<u8>>::empty());
            assert(r.client_keys() =~= Seq::<Seq<u8>>::empty());
        }
        r
    }

    /// Finds a server entry's position.
    fn find_server(&self, key: &Vec<u8>) -> (r: Option<usize>)
        ensures
            match r {
                Some(i) => 0 <= i < self.servers@.len() && self.servers@[i as int].key@ == key@,
                None => !self.has_server(key@),
            },
    {
        let mut i: usize = 0;
        while i < self.servers.len()
            invariant
                i <= self.servers@.len(),
                forall|j: int| 0 <= j < i ==> self.servers@[j].key@ != key@,
            decreases self.servers@.len() - i,
        {
            if crate::session::vec_u8_eq(&self.servers[i].key, key) {
                return Some(i);
            }
            i = i + 1;
        }
        proof {
            assert forall|j: int| 0 <= j < self.server_keys().len() implies self.server_keys()[j]
                != key@ by {
                assert(self.servers@[j].key@ != key@);
            }
        }
        None
    }

    /// Finds a client entry's position.
    fn find_client(&self, key: &Vec<u8>) -> (r: Option<usize>)
        ensures
            match r {
                Some(i) => 0 <= i < self.clients@.len() && self.clients@[i as int].key@ == key@,
                None => !self.has_client(key@),
            },
    {
        let mut i: usize = 0;
        while i < self.clients.len()
            invariant
                i <= self.clients@.len(),
                forall|j: int| 0 <= j < i ==> self.clients@[j].key@ != key@,
            decreases self.clients@.len() - i,
        {
            if crate::session::vec_u8_eq(&self.clients[i].key, key) {
                return Some(i);
            }
            i = i + 1;
        }
        proof {
            assert forall|j: int| 0 <= j < self.client_keys().len() implies self.client_keys()[j]
                != key@ by {
                assert(self.clients@[j].key@ != key@);
            }
        }
        None
    }

    /// Registers a server session under a key. A key already taken keeps its
    /// session: the newcomer is not registered, which is what keeps servers
    /// unique per key.
    pub fn set_server_sender(&mut self, srv_key: &Vec<u8>, srv_sender: ServerSender)
        requires
            old(self).wf(),
            srv_sender.wf(),
        ensures
            final(self).wf(),
            final(self).clients == old(self).clients,
            final(self).has_server(srv_key@),
            forall|k: Seq<u8>|
                k != srv_key@ ==> #[trigger] final(self).has_server(k) == old(self).has_server(k),
            forall|k: Seq<u8>|
                k != srv_key@ && old(self).has_server(k) ==> #[trigger] final(self).server_at(k)
                    == old(self).server_at(k),
            old(self).has_server(srv_key@) ==> *final(self) == *old(self),
            !old(self).has_server(srv_key@) ==> final(self).server_at(srv_key@) == srv_sender,
    {
        match self.find_server(srv_key) {
            Some(i) => {
                proof {
                    self.lemma_server_entry(srv_key@, i as int);
                }
            },
            None => {
                let entry = ServerEntry { key: srv_key.clone(), sender: srv_sender };
                self.servers.push(entry);
                proof {
                    let pre = *old(self);
                    let post = *self;
                    let n = pre.servers@.len() as int;
                    assert(post.servers@[n].key@ == srv_key@);
                    assert forall|i: int, j: int|
                        0 <= i < j < post.servers@.len() implies post.servers@[i].key@
                        != post.servers@[j].key@ by {
                        if j < n {
                            assert(pre.servers@[i].key@ != pre.servers@[j].key@);
                        } else {
                            assert(pre.server_keys()[i] == pre.servers@[i].key@);
                            assert(!pre.has_server(srv_key@));
                        }
                    }
                    post.lemma_server_entry(srv_key@, n);
                    assert forall|k: Seq<u8>|
                        k != srv_key@ implies #[trigger] post.has_server(k) == pre.has_server(
                        k,
                    ) by {
                        lemma_push_keeps_other_server_keys(pre, post, k, n);
                    }
                    assert forall|k: Seq<u8>|
                        k != srv_key@ && pre.has_server(k) implies #[trigger] post.server_at(k)
                            == pre.server_at(k) by {
                        let i = choose|i: int|
                            0 <= i < pre.servers@.len() && pre.server_keys()[i] == k;
                        assert(pre.servers@[i].key@ == k);
                        pre.lemma_server_entry(k, i);
                        post.lemma_server_entry(k, i);
                    }
                }
            },
        }
    }

    /// Removes the server session under a key, if any.
    pub fn del_server_sender(&mut self, srv_key: &Vec<u8>)
        requires
            old(self).wf(),
        ensures
            final(self).wf(),
            final(self).clients == old(self).clients,
            !final(self).has_server(srv_key@),
            forall|k: Seq<u8>|
                k != srv_key@ ==> #[trigger] final(self).has_server(k) == old(self).has_server(k),
            forall|k: Seq<u8>|
                k != srv_key@ && old(self).has_server(k) ==> #[trigger] final(self).server_at(k)
                    == old(self).server_at(k),
            !old(self).has_server(srv_key@) ==> *final(self) == *old(self),
    {
        match self.find_server(srv_key) {
            Some(i) => {
                proof {
                    old(self).lemma_server_entry(srv_key@, i as int);
                }
                let _ = self.servers.remove(i);
                proof {
                    let pre = *old(self);
                    let post = *self;
                    let n = pre.servers@.len() as int;
                    assert forall|ii: int, jj: int|
                        0 <= ii < jj < post.servers@.len() implies post.servers@[ii].key@
                        != post.servers@[jj].key@ by {
                        let oi = if ii < i as int { ii } else { ii + 1 };
                        let oj = if jj < i as int { jj } else { jj + 1 };
                        assert(post.servers@[ii] == pre.servers@[oi]);
                        assert(post.servers@[jj] == pre.servers@[oj]);
                    }
                    assert forall|j: int|
                        0 <= j < post.server_keys().len() implies post.server_keys()[j]
                        != srv_key@ by {
                        let oj = if j < i as int { j } else { j + 1 };
                        assert(post.servers@[j] == pre.servers@[oj]);
                        assert(pre.servers@[oj].key@ != pre.servers@[i as int].key@);
                    }
                    assert forall|k: Seq<u8>|
                        k != srv_key@ implies #[trigger] post.has_server(k) == pre.has_server(
                        k,
                    ) by {
                        lemma_remove_keeps_other_server_keys(pre, post, k, i as int);
                    }
                    assert forall|k: Seq<u8>|
                        k != srv_key@ && pre.has_server(k) implies #[trigger] post.server_at(k)
                            == pre.server_at(k) by {
                        let oi = choose|oi: int|
                            0 <= oi < pre.servers@.len() && pre.server_keys()[oi] == k;
                        assert(pre.servers@[oi].key@ == k);
                        pre.lemma_server_entry(k, oi);
                        let ni = if oi < i as int { oi } else { oi - 1 };
                        assert(post.servers@[ni] == pre.servers@[oi]);
                        post.lemma_server_entry(k, ni);
                    }
                }
            },
            None => {},
        }
    }

    /// Looks up the server session under a key.
    pub fn get_server_sender(&self, srv_key: &Vec<u8>) -> (r: Option<&ServerSender>)
        requires
            self.wf(),
        ensures
            r is Some <==> self.has_server(srv_key@),
            r matches Some(s) ==> *s == self.server_at(srv_key@),
    {
        match self.find_server(srv_key) {
            Some(i) => {
                proof {
                    self.lemma_server_entry(srv_key@, i as int);
                }
                Some(&self.servers[i].sender)
            },
            None => None,
        }
    }
}

impl AppState {
    /// Registers a server session; the voice of the WebSocket handler on a
    /// completed upgrade.
    pub fn server_open(&mut self, srv_key: &Vec<u8>, srv_sender: ServerSender)
        requires
            old(self).wf(),
            srv_sender.wf(),
        ensures
            final(self).wf(),
            final(self).clients == old(self).clients,
            final(self).has_server(srv_key@),
            forall|k: Seq<u8>|
                k != srv_key@ ==> #[trigger] final(self).has_server(k) == old(self).has_server(k),
            forall|k: Seq<u8>|
                k != srv_key@ && old(self).has_server(k) ==> #[trigger] final(self).server_at(k)
                    == old(self).server_at(k),
            old(self).has_server(srv_key@) ==> *final(self) == *old(self),
            !old(self).has_server(srv_key@) ==> final(self).server_at(srv_key@) == srv_sender,
    {
        self.set_server_sender(srv_key, srv_sender);
    }

    /// Removes the client session under a key, if any.
    pub fn client_close(&mut self, client_key: &Vec<u8>)
        requires
            old(self).wf(),
        ensures
            final(self).wf(),
            final(self).servers == old(self).servers,
            !final(self).has_client(client_key@),
            forall|k: Seq<u8>|
                k != client_key@ ==> #[trigger] final(self).has_client(k) == old(self).has_client(
                    k,
                ),
            forall|k: Seq<u8>|
                k != client_key@ && old(self).has_client(k) ==> #[trigger] final(self).client_at(k)
                    == old(self).client_at(k),
            !old(self).has_client(client_key@) ==> *final(self) == *old(self),
    {
        match self.find_client(client_key) {
            Some(i) => {
                proof {
                    old(self).lemma_client_entry(client_key@, i as int);
                }
                let _ = self.clients.remove(i);
                proof {
                    let pre = *old(self);
                    let post = *self;
                    assert forall|ii: int, jj: int|
                        0 <= ii < jj < post.clients@.len() implies post.clients@[ii].key@
                        != post.clients@[jj].key@ by {
                        let oi = if ii < i as int { ii } else { ii + 1 };
                        let oj = if jj < i as int { jj } else { jj + 1 };
                        assert(post.clients@[ii] == pre.clients@[oi]);
                        assert(post.clients@[jj] == pre.clients@[oj]);
                    }
                    assert forall|j: int|
                        0 <= j < post.client_keys().len() implies post.client_keys()[j]
                        != client_key@ by {
                        let oj = if j < i as int { j } else { j + 1 };
                        assert(post.clients@[j] == pre.clients@[oj]);
                        assert(pre.clients@[oj].key@ != pre.clients@[i as int].key@);
                    }
                    assert forall|k: Seq<u8>|
                        k != client_key@ implies #[trigger] post.has_client(k) == pre.has_client(
                        k,
                    ) by {
                        lemma_remove_keeps_other_client_keys(pre, post, k, i as int);
                    }
                    assert forall|k: Seq<u8>|
                        k != client_key@ && pre.has_client(k) implies #[trigger] post.client_at(k)
                            == pre.client_at(k) by {
                        let oi = choose|oi: int|
                            0 <= oi < pre.clients@.len() && pre.client_keys()[oi] == k;
                        assert(pre.clients@[oi].key@ == k);
                        pre.lemma_client_entry(k, oi);
                        let ni = if oi < i as int { oi } else { oi - 1 };
                        assert(post.clients@[ni] == pre.clients@[oi]);
                        post.lemma_client_entry(k, ni);
                    }
                }
            },
            None => {},
        }
    }

    /// Opens or refreshes the client session under a key, as the HTTP
    /// handler does on each request: a missing session is created with a
    /// fresh deadline and then touched like any other, since every request
    /// touches the session it speaks for; a touch never moves the deadline
    /// backwards.
    pub fn client_open(&mut self, cli_key: &Vec<u8>, now: u64)
        requires
            old(self).wf(),
        ensures
            final(self).wf(),
            final(self).servers == old(self).servers,
            final(self).has_client(cli_key@),
            forall|k: Seq<u8>|
                k != cli_key@ ==> #[trigger] final(self).has_client(k) == old(self).has_client(k),
            forall|k: Seq<u8>|
                k != cli_key@ && old(self).has_client(k) ==> #[trigger] final(self).client_at(k)
                    == old(self).client_at(k),
            !old(self).has_client(cli_key@) ==> final(self).client_at(cli_key@).replies()
                == Seq::<Seq<u8>>::empty() && final(self).client_at(cli_key@).expired_at
                == touch_at(sat_add64(now, FRESH_TTL_SECS), now),
            old(self).has_client(cli_key@) ==> final(self).client_at(cli_key@).replies()
                == old(self).client_at(cli_key@).replies()
                && final(self).client_at(cli_key@).expired_at
                == touch_at(old(self).client_at(cli_key@).expired_at, now)
                && final(self).client_at(cli_key@).expired_at
                >= old(self).client_at(cli_key@).expired_at,
    {
        match self.find_client(cli_key) {
            Some(i) => {
                proof {
                    old(self).lemma_client_entry(cli_key@, i as int);
                }
                let mut entry = self.clients.remove(i);
                entry.receiver.touch(now);
                self.clients.insert(i, entry);
                proof {
                    let pre = *old(self);
                    let post = *self;
                    assert(post.clients@.len() == pre.clients@.len());
                    assert(forall|j: int|
                        0 <= j < post.clients@.len() && j != i ==> post.clients@[j]
                            == pre.clients@[j]);
                    assert(post.clients@[i as int].key@ == pre.clients@[i as int].key@);
                    lemma_client_update_frame(pre, post, i as int);
                    assert(post.client_at(cli_key@).replies() == pre.client_at(
                        cli_key@,
                    ).replies());
                }
            },
            None => {
                let mut receiver = ClientReceiver::new(now);
                receiver.touch(now);
                let entry = ClientEntry { key: cli_key.clone(), receiver };
                self.clients.push(entry);
                proof {
                    let pre = *old(self);
                    let post = *self;
                    let n = pre.clients@.len() as int;
                    assert(post.clients@[n].key@ == cli_key@);
                    assert forall|ii: int, jj: int|
                        0 <= ii < jj < post.clients@.len() implies post.clients@[ii].key@
                        != post.clients@[jj].key@ by {
                        if jj < n {
                            assert(pre.clients@[ii].key@ != pre.clients@[jj].key@);
                        } else {
                            assert(pre.client_keys()[ii] == pre.clients@[ii].key@);
                            assert(!pre.has_client(cli_key@));
                        }
                    }
                    post.lemma_client_entry(cli_key@, n);
                    assert forall|k: Seq<u8>|
                        k != cli_key@ implies #[trigger] post.has_client(k) == pre.has_client(
                        k,
                    ) by {
                        lemma_push_keeps_other_client_keys(pre, post, k, n);
                    }
                    assert forall|k: Seq<u8>|
                        k != cli_key@ && pre.has_client(k) implies #[trigger] post.client_at(k)
                            == pre.client_at(k) by {
                        let i = choose|i: int|
                            0 <= i < pre.clients@.len() && pre.client_keys()[i] == k;
                        assert(pre.clients@[i].key@ == k);
                        pre.lemma_client_entry(k, i);
                        post.lemma_client_entry(k, i);
                    }
                }
            },
        }
    }

    /// Looks up the client session under a key.
    pub fn client_receiver(&self, cli_key: &Vec<u8>) -> (r: Option<&ClientReceiver>)
        requires
            self.wf(),
        ensures
            r is Some <==> self.has_client(cli_key@),
            r matches Some(c) ==> *c == self.client_at(cli_key@),
    {
        match self.find_client(cli_key) {
            Some(i) => {
                proof {
                    self.lemma_client_entry(cli_key@, i as int);
                }
                Some(&self.clients[i].receiver)
            },
            None => None,
        }
    }

    /// Tears a server session down: the entry goes, and every client that
    /// exchanged traffic over it (the keys the session's teardown hands in)
    /// is closed with it, so no half-open client survives its server.
    pub fn server_close(&mut self, srv_key: &Vec<u8>, cli_keys: &Vec<Vec<u8>>)
        requires
            old(self).wf(),
        ensures
            final(self).wf(),
            !final(self).has_server(srv_key@),
            forall|k: Seq<u8>|
                k != srv_key@ ==> #[trigger] final(self).has_server(k) == old(self).has_server(k),
            forall|k: Seq<u8>|
                k != srv_key@ && old(self).has_server(k) ==> #[trigger] final(self).server_at(k)
                    == old(self).server_at(k),
            forall|j: int|
                0 <= j < cli_keys@.len() ==> !final(self).has_client(
                    #[trigger] cli_keys@[j]@,
                ),
            forall|k: Seq<u8>|
                !byte_seqs(cli_keys@).contains(k) ==> #[trigger] final(self).has_client(k)
                    == old(self).has_client(k),
            forall|k: Seq<u8>|
                !byte_seqs(cli_keys@).contains(k) && old(self).has_client(k)
                    ==> #[trigger] final(self).client_at(k) == old(self).client_at(k),
    {
        self.del_server_sender(srv_key);
        let ghost mid = *self;
        let mut i: usize = 0;
        while i < cli_keys.len()
            invariant
                old(self).wf(),
                self.wf(),
                i <= cli_keys@.len(),
                self.servers == mid.servers,
                mid.clients == old(self).clients,
                forall|j: int| 0 <= j < i ==> !self.has_client(#[trigger] cli_keys@[j]@),
                forall|k: Seq<u8>|
                    !byte_seqs(cli_keys@).contains(k) ==> #[trigger] self.has_client(k)
                        == old(self).has_client(k),
                forall|k: Seq<u8>|
                    !byte_seqs(cli_keys@).contains(k) && old(self).has_client(k)
                        ==> #[trigger] self.client_at(k) == old(self).client_at(k),
            decreases cli_keys@.len() - i,
        {
            let ghost before = *self;
            self.client_close(&cli_keys[i]);
            proof {
                assert(byte_seqs(cli_keys@)[i as int] == cli_keys@[i as int]@);
                assert(byte_seqs(cli_keys@).contains(cli_keys@[i as int]@));
                assert forall|j: int| 0 <= j < i + 1 implies !self.has_client(
                    #[trigger] cli_keys@[j]@,
                ) by {
                    if cli_keys@[j]@ != cli_keys@[i as int]@ {
                        assert(!before.has_client(cli_keys@[j]@));
                    }
                }
            }
            i = i + 1;
        }
        proof {
            assert(self.servers@ == mid.servers@);
            assert forall|k: Seq<u8>|
                k != srv_key@ implies #[trigger] self.has_server(k) == old(self).has_server(
                k,
            ) by {
                assert(self.server_keys() =~= mid.server_keys());
                assert(mid.has_server(k) == old(self).has_server(k));
            }
            assert(self.server_keys() =~= mid.server_keys());
            assert(!self.has_server(srv_key@));
            assert forall|k: Seq<u8>|
                k != srv_key@ && old(self).has_server(k) implies #[trigger] self.server_at(k)
                    == old(self).server_at(k) by {
                assert(self.server_keys() =~= mid.server_keys());
                assert(mid.has_server(k) == old(self).has_server(k));
                assert(mid.server_at(k) == old(self).server_at(k));
                let i = choose|i: int| 0 <= i < mid.servers@.len() && mid.server_keys()[i] == k;
                assert(mid.servers@[i].key@ == k);
                mid.lemma_server_entry(k, i);
                self.lemma_server_entry(k, i);
            }
        }
    }
}

/// Two directories whose client entries agree except for one entry whose key
/// is unchanged agree on membership everywhere, and on the session under
/// every other key.
proof fn lemma_client_update_frame(pre: AppState, post: AppState, i: int)
    requires
        distinct_client_keys(pre.clients@),
        0 <= i < pre.clients@.len(),
        post.clients@.len() == pre.clients@.len(),
        forall|j: int| 0 <= j < pre.clients@.len() && j != i ==> post.clients@[j] == pre.clients@[j],
        post.clients@[i].key@ == pre.clients@[i].key@,
    ensures
        distinct_client_keys(post.clients@),
        forall|k: Seq<u8>| #[trigger] post.has_client(k) == pre.has_client(k),
        forall|k: Seq<u8>|
            k != pre.clients@[i].key@ && pre.has_client(k) ==> #[trigger] post.client_at(k)
                == pre.client_at(k),
        post.client_at(pre.clients@[i].key@) == post.clients@[i].receiver,
        pre.client_at(pre.clients@[i].key@) == pre.clients@[i].receiver,
        pre.has_client(pre.clients@[i].key@),
    {
    assert(post.client_keys() =~= pre.client_keys());
    assert(distinct_client_keys(post.clients@)) by {
        assert forall|ii: int, jj: int|
            0 <= ii < jj < post.clients@.len() implies post.clients@[ii].key@
            != post.clients@[jj].key@ by {
            assert(post.clients@[ii].key@ == pre.clients@[ii].key@);
            assert(post.clients@[jj].key@ == pre.clients@[jj].key@);
        }
    }
    pre.lemma_client_entry(pre.clients@[i].key@, i);
    post.lemma_client_entry(pre.clients@[i].key@, i);
    assert forall|k: Seq<u8>|
        k != pre.clients@[i].key@ && pre.has_client(k) implies #[trigger] post.client_at(k)
            == pre.client_at(k) by {
        let oi = choose|oi: int| 0 <= oi < pre.clients@.len() && pre.client_keys()[oi] == k;
        assert(pre.clients@[oi].key@ == k);
        pre.lemma_client_entry(k, oi);
        assert(post.clients@[oi] == pre.clients@[oi]);
        post.lemma_client_entry(k, oi);
    }
}

/// Two directories whose client entries agree except for one pushed entry
/// agree on every other key's membership.
proof fn lemma_push_keeps_other_client_keys(pre: AppState, post: AppState, k: Seq<u8>, n: int)
    requires
        post.clients@.len() == n + 1,
        pre.clients@.len() == n,
        forall|i: int| 0 <= i < n ==> post.clients@[i] == pre.clients@[i],
        post.clients@[n].key@ != k,
    ensures
        post.has_client(k) == pre.has_client(k),
{
    if pre.has_client(k) {
        let i = choose|i: int| 0 <= i < pre.client_keys().len() && pre.client_keys()[i] == k;
        assert(post.client_keys()[i] == k);
    }
    if post.has_client(k) {
        let i = choose|i: int| 0 <= i < post.client_keys().len() && post.client_keys()[i] == k;
        assert(i < n);
        assert(pre.client_keys()[i] == k);
    }
}

/// Two directories whose client entries agree except for one removed entry
/// agree on every other key's membership.
proof fn lemma_remove_keeps_other_client_keys(pre: AppState, post: AppState, k: Seq<u8>, i: int)
    requires
        0 <= i < pre.clients@.len(),
        post.clients@ == pre.clients@.remove(i),
        pre.clients@[i].key@ != k,
    ensures
        post.has_client(k) == pre.has_client(k),
{
    if pre.has_client(k) {
        let oi = choose|oi: int| 0 <= oi < pre.client_keys().len() && pre.client_keys()[oi] == k;
        assert(pre.clients@[oi].key@ == k);
        let ni = if oi < i {
            oi
        } else {
            oi - 1
        };
        assert(post.clients@[ni] == pre.clients@[oi]);
        assert(post.client_keys()[ni] == k);
    }
    if post.has_client(k) {
        let ni = choose|ni: int| 0 <= ni < post.client_keys().len() && post.client_keys()[ni] == k;
        let oi = if ni < i {
            ni
        } else {
            ni + 1
        };
        assert(post.clients@[ni] == pre.clients@[oi]);
        assert(pre.client_keys()[oi] == k);
    }
}


/// A frame is routable when its framing decodes.
pub open spec fn frame_ok(f: ProxyMessage) -> bool {
    match f {
        ProxyMessage::Text(d) => codec::text_frame_ok(d@),
        ProxyMessage::Binary(d) => codec::binary_frame_ok(d@),
    }
}

/// The client key a well-formed frame carries.
pub open spec fn frame_client_key(f: ProxyMessage) -> Seq<u8> {
    match f {
        ProxyMessage::Text(d) => d@.subrange(3, 3 + codec::text_key_len(d@)),
        ProxyMessage::Binary(d) => d@.subrange(1, 1 + d@[0]),
    }
}

/// The payload a well-formed frame carries, any sentinel suffix included.
pub open spec fn frame_reply_payload(f: ProxyMessage) -> Seq<u8> {
    match f {
        ProxyMessage::Text(d) => d@.subrange(3 + codec::text_key_len(d@), d@.len() as int),
        ProxyMessage::Binary(d) => d@.subrange(1 + d@[0], d@.len() as int),
    }
}

impl AppState {
    /// Queues a text frame on a server's outbound queue: the request path's
    /// hand-off to the write loop. Fails when no server session lives under
    /// the key, or when the queue is full and the caller must report
    /// backpressure.
    pub fn server_send_text(&mut self, srv_key: &Vec<u8>, message: &Vec<u8>) -> (r: Result<
        (),
        CommonErr,
    >)
        requires
            old(self).wf(),
        ensures
            final(self).wf(),
            final(self).clients == old(self).clients,
            forall|k: Seq<u8>| #[trigger] final(self).has_server(k) == old(self).has_server(k),
            forall|k: Seq<u8>|
                k != srv_key@ && old(self).has_server(k) ==> #[trigger] final(self).server_at(k)
                    == old(self).server_at(k),
            !old(self).has_server(srv_key@) ==> (r matches Err(e) && e.kind == ErrKind::NotFound
                && e.message@ == "server key not found"@ && final(self).servers == old(self).servers),
            old(self).has_server(srv_key@) && old(self).server_at(srv_key@).pending().len()
                < OUTBOUND_QUEUE_CAP ==> (r is Ok
                && final(self).server_at(srv_key@).attached() == old(self).server_at(
                srv_key@,
            ).attached() && final(self).server_at(srv_key@).pending().drop_last() == old(self).server_at(srv_key@).pending() && (final(self).server_at(srv_key@).pending().last()
                matches ProxyMessage::Text(m) && m@ == message@)),
            old(self).has_server(srv_key@) && old(self).server_at(srv_key@).pending().len()
                >= OUTBOUND_QUEUE_CAP ==> (r matches Err(e) && e.kind == ErrKind::WouldBlock
                && final(self).server_at(srv_key@).pending() == old(self).server_at(
                srv_key@,
            ).pending() && final(self).server_at(srv_key@).attached() == old(self).server_at(
                srv_key@,
            ).attached()),
    {
        match self.find_server(srv_key) {
            None => Err(common_err("server key not found", Some(ErrKind::NotFound))),
            Some(i) => {
                proof {
                    old(self).lemma_server_entry(srv_key@, i as int);
                }
                let payload = codec::copy_range(message, 0, message.len());
                proof {
                    assert(payload@ =~= message@);
                }
                let mut entry = self.servers.remove(i);
                let sent = entry.sender.send(ProxyMessage::Text(payload));
                self.servers.insert(i, entry);
                proof {
                    let pre = *old(self);
                    let post = *self;
                    assert(post.servers@.len() == pre.servers@.len());
                    assert(forall|j: int|
                        0 <= j < post.servers@.len() && j != i ==> post.servers@[j]
                            == pre.servers@[j]);
                    assert(post.servers@[i as int].key@ == pre.servers@[i as int].key@);
                    lemma_server_update_frame(pre, post, i as int);
                }
                match sent {
                    Ok(()) => Ok(()),
                    Err(()) => Err(
                        common_err("server outbound queue is full", Some(ErrKind::WouldBlock)),
                    ),
                }
            },
        }
    }

    /// Queues a binary frame on a server's outbound queue; the binary twin
    /// of [`Self::server_send_text`].
    pub fn server_send_binary(&mut self, srv_key: &Vec<u8>, message: Vec<u8>) -> (r: Result<
        (),
        CommonErr,
    >)
        requires
            old(self).wf(),
        ensures
            final(self).wf(),
            final(self).clients == old(self).clients,
            forall|k: Seq<u8>| #[trigger] final(self).has_server(k) == old(self).has_server(k),
            forall|k: Seq<u8>|
                k != srv_key@ && old(self).has_server(k) ==> #[trigger] final(self).server_at(k)
                    == old(self).server_at(k),
            !old(self).has_server(srv_key@) ==> (r matches Err(e) && e.kind == ErrKind::NotFound
                && e.message@ == "server key not found"@ && final(self).servers == old(self).servers),
            old(self).has_server(srv_key@) && old(self).server_at(srv_key@).pending().len()
                < OUTBOUND_QUEUE_CAP ==> (r is Ok
                && final(self).server_at(srv_key@).attached() == old(self).server_at(
                srv_key@,
            ).attached() && final(self).server_at(srv_key@).pending().drop_last() == old(self).server_at(srv_key@).pending() && (final(self).server_at(srv_key@).pending().last()
                matches ProxyMessage::Binary(m) && m@ == message@)),
            old(self).has_server(srv_key@) && old(self).server_at(srv_key@).pending().len()
                >= OUTBOUND_QUEUE_CAP ==> (r matches Err(e) && e.kind == ErrKind::WouldBlock
                && final(self).server_at(srv_key@).pending() == old(self).server_at(
                srv_key@,
            ).pending() && final(self).server_at(srv_key@).attached() == old(self).server_at(
                srv_key@,
            ).attached()),
    {
        match self.find_server(srv_key) {
            None => Err(common_err("server key not found", Some(ErrKind::NotFound))),
            Some(i) => {
                proof {
                    old(self).lemma_server_entry(srv_key@, i as int);
                }
                let mut entry = self.servers.remove(i);
                let sent = entry.sender.send(ProxyMessage::Binary(message));
                self.servers.insert(i, entry);
                proof {
                    let pre = *old(self);
                    let post = *self;
                    assert(post.servers@.len() == pre.servers@.len());
                    assert(forall|j: int|
                        0 <= j < post.servers@.len() && j != i ==> post.servers@[j]
                            == pre.servers@[j]);
                    assert(post.servers@[i as int].key@ == pre.servers@[i as int].key@);
                    lemma_server_update_frame(pre, post, i as int);
                }
                match sent {
                    Ok(()) => Ok(()),
                    Err(()) => Err(
                        common_err("server outbound queue is full", Some(ErrKind::WouldBlock)),
                    ),
                }
            },
        }
    }

    /// Remembers that a client key exchanged traffic over a server, as the
    /// request path does when it queues a frame for it; attaching twice
    /// changes nothing.
    pub fn server_attach_client(&mut self, srv_key: &Vec<u8>, cli_key: &Vec<u8>)
        requires
            old(self).wf(),
        ensures
            final(self).wf(),
            final(self).clients == old(self).clients,
            forall|k: Seq<u8>| #[trigger] final(self).has_server(k) == old(self).has_server(k),
            forall|k: Seq<u8>|
                k != srv_key@ && old(self).has_server(k) ==> #[trigger] final(self).server_at(k)
                    == old(self).server_at(k),
            !old(self).has_server(srv_key@) ==> final(self).servers == old(self).servers,
            old(self).has_server(srv_key@) ==> final(self).server_at(srv_key@).pending() == old(self).server_at(srv_key@).pending() && final(self).server_at(srv_key@).attached()
                == crate::session::attach_spec(old(self).server_at(srv_key@).attached(), cli_key@),
    {
        match self.find_server(srv_key) {
            None => {},
            Some(i) => {
                proof {
                    old(self).lemma_server_entry(srv_key@, i as int);
                }
                let mut entry = self.servers.remove(i);
                entry.sender.add_client_key(cli_key);
                self.servers.insert(i, entry);
                proof {
                    let pre = *old(self);
                    let post = *self;
                    assert(post.servers@.len() == pre.servers@.len());
                    assert(forall|j: int|
                        0 <= j < post.servers@.len() && j != i ==> post.servers@[j]
                            == pre.servers@[j]);
                    assert(post.servers@[i as int].key@ == pre.servers@[i as int].key@);
                    lemma_server_update_frame(pre, post, i as int);
                }
            },
        }
    }

    /// Hands the write loop the oldest outbound frame of a server, if any:
    /// frames leave in the order they were queued.
    pub fn server_take_outbound(&mut self, srv_key: &Vec<u8>) -> (r: Option<ProxyMessage>)
        requires
            old(self).wf(),
        ensures
            final(self).wf(),
            final(self).clients == old(self).clients,
            forall|k: Seq<u8>| #[trigger] final(self).has_server(k) == old(self).has_server(k),
            forall|k: Seq<u8>|
                k != srv_key@ && old(self).has_server(k) ==> #[trigger] final(self).server_at(k)
                    == old(self).server_at(k),
            !old(self).has_server(srv_key@) ==> r is None && final(self).servers == old(self).servers,
            old(self).has_server(srv_key@) ==> final(self).server_at(srv_key@).attached() == old(self).server_at(srv_key@).attached(),
            old(self).has_server(srv_key@) && old(self).server_at(srv_key@).pending().len() == 0
                ==> r is None && final(self).server_at(srv_key@).pending() == old(self).server_at(
                srv_key@,
            ).pending(),
            old(self).has_server(srv_key@) && old(self).server_at(srv_key@).pending().len() > 0
                ==> (r matches Some(f) && f == old(self).server_at(srv_key@).pending()[0] && final(self).server_at(srv_key@).pending() == old(self).server_at(
                srv_key@,
            ).pending().drop_first()),
    {
        match self.find_server(srv_key) {
            None => None,
            Some(i) => {
                proof {
                    old(self).lemma_server_entry(srv_key@, i as int);
                }
                let mut entry = self.servers.remove(i);
                let taken = entry.sender.take_outbound();
                self.servers.insert(i, entry);
                proof {
                    let pre = *old(self);
                    let post = *self;
                    assert(post.servers@.len() == pre.servers@.len());
                    assert(forall|j: int|
                        0 <= j < post.servers@.len() && j != i ==> post.servers@[j]
                            == pre.servers@[j]);
                    assert(post.servers@[i as int].key@ == pre.servers@[i as int].key@);
                    lemma_server_update_frame(pre, post, i as int);
                }
                taken
            },
        }
    }

    /// Routes one frame read from a server's socket: decodes it, remembers
    /// that this client key exchanged traffic over this server, and delivers
    /// the payload (sentinel suffix and all) onto that client's reply queue.
    /// A malformed frame is refused with the state untouched, so the session
    /// survives it; a reply for a client nobody is waiting for is dropped;
    /// and no other client's queue ever changes.
    pub fn route_reply(&mut self, srv_key: &Vec<u8>, frame: &ProxyMessage) -> (r: Result<
        Vec<u8>,
        CommonErr,
    >)
        requires
            old(self).wf(),
        ensures
            final(self).wf(),
            r is Ok <==> frame_ok(*frame),
            !frame_ok(*frame) ==> *final(self) == *old(self) && (r matches Err(e) && e.kind
                == ErrKind::InvalidInput),
            frame_ok(*frame) ==> r->Ok_0@ == frame_client_key(*frame),
            frame_ok(*frame) ==> forall|k: Seq<u8>| #[trigger]
                final(self).has_server(k) == old(self).has_server(k),
            frame_ok(*frame) ==> forall|k: Seq<u8>| #[trigger]
                final(self).has_client(k) == old(self).has_client(k),
            frame_ok(*frame) && !old(self).has_server(srv_key@) ==> final(self).servers == old(self).servers,
            frame_ok(*frame) && old(self).has_server(srv_key@) ==> final(self).server_at(
                srv_key@,
            ).pending() == old(self).server_at(srv_key@).pending() && final(self).server_at(
                srv_key@,
            ).attached() == crate::session::attach_spec(
                old(self).server_at(srv_key@).attached(),
                frame_client_key(*frame),
            ),
            frame_ok(*frame) ==> forall|k: Seq<u8>|
                k != srv_key@ && old(self).has_server(k) ==> #[trigger] final(self).server_at(k)
                    == old(self).server_at(k),
            frame_ok(*frame) && !old(self).has_client(frame_client_key(*frame)) ==> final(self).clients == old(self).clients,
            frame_ok(*frame) && old(self).has_client(frame_client_key(*frame)) ==> final(self).client_at(frame_client_key(*frame)).replies() == crate::session::deliver_spec(
                old(self).client_at(frame_client_key(*frame)).replies(),
                frame_reply_payload(*frame),
            ) && final(self).client_at(frame_client_key(*frame)).expired_at == old(self).client_at(
                frame_client_key(*frame),
            ).expired_at,
            frame_ok(*frame) ==> forall|k: Seq<u8>|
                k != frame_client_key(*frame) && old(self).has_client(k) ==> #[trigger] final(self).client_at(k) == old(self).client_at(k),
    {
        let decoded = match frame {
            ProxyMessage::Text(d) => codec::decode_text(d),
            ProxyMessage::Binary(d) => codec::decode_binary(d),
        };
        let (client_key, payload) = match decoded {
            Ok(kp) => kp,
            Err(_) => {
                return Err(common_err("malformed reply frame", Some(ErrKind::InvalidInput)));
            },
        };
        proof {
            assert(client_key@ == frame_client_key(*frame));
            assert(payload@ == frame_reply_payload(*frame));
        }
        match self.find_server(srv_key) {
            Some(i) => {
                proof {
                    old(self).lemma_server_entry(srv_key@, i as int);
                }
                let mut entry = self.servers.remove(i);
                entry.sender.add_client_key(&client_key);
                self.servers.insert(i, entry);
                proof {
                    let pre = *old(self);
                    let post = *self;
                    assert(post.servers@.len() == pre.servers@.len());
                    assert(forall|j: int|
                        0 <= j < post.servers@.len() && j != i ==> post.servers@[j]
                            == pre.servers@[j]);
                    assert(post.servers@[i as int].key@ == pre.servers@[i as int].key@);
                    lemma_server_update_frame(pre, post, i as int);
                }
            },
            None => {},
        }
        let ghost mid = *self;
        match self.find_client(&client_key) {
            Some(i) => {
                proof {
                    mid.lemma_client_entry(client_key@, i as int);
                }
                let mut entry = self.clients.remove(i);
                entry.receiver.deliver(payload);
                self.clients.insert(i, entry);
                proof {
                    let pre = mid;
                    let post = *self;
                    assert(post.clients@.len() == pre.clients@.len());
                    assert(forall|j: int|
                        0 <= j < post.clients@.len() && j != i ==> post.clients@[j]
                            == pre.clients@[j]);
                    assert(post.clients@[i as int].key@ == pre.clients@[i as int].key@);
                    lemma_client_update_frame(pre, post, i as int);
                }
            },
            None => {},
        }
        proof {
            let pre = *old(self);
            let post = *self;
            assert(post.servers == mid.servers);
            assert forall|k: Seq<u8>| #[trigger] post.has_server(k) == pre.has_server(k) by {
                assert(mid.has_server(k) == pre.has_server(k));
            }
            assert forall|k: Seq<u8>|
                k != srv_key@ && pre.has_server(k) implies #[trigger] post.server_at(k)
                    == pre.server_at(k) by {
                assert(mid.has_server(k) == pre.has_server(k));
                assert(mid.server_at(k) == pre.server_at(k));
            }
            if pre.has_server(srv_key@) {
                assert(mid.server_at(srv_key@).pending() == pre.server_at(srv_key@).pending());
                assert(mid.server_at(srv_key@).attached() == crate::session::attach_spec(
                    pre.server_at(srv_key@).attached(),
                    client_key@,
                ));
            } else {
                assert(post.servers == pre.servers);
            }
            assert(mid.clients == pre.clients);
            assert forall|k: Seq<u8>| #[trigger] post.has_client(k) == pre.has_client(k) by {
                assert(post.has_client(k) == mid.has_client(k));
            }
            assert forall|k: Seq<u8>|
                k != client_key@ && pre.has_client(k) implies #[trigger] post.client_at(k)
                    == pre.client_at(k) by {
                assert(post.has_client(k) == mid.has_client(k));
                if mid.has_client(k) {
                    assert(post.client_at(k) == mid.client_at(k));
                }
            }
            if pre.has_client(client_key@) {
                assert(mid.has_client(client_key@));
                assert(post.client_at(client_key@).replies() == crate::session::deliver_spec(
                    mid.client_at(client_key@).replies(),
                    payload@,
                ));
            } else {
                assert(post.clients == mid.clients);
            }
        }
        Ok(client_key)
    }

    /// The whole teardown of a server session, as its socket's close runs
    /// it: the session hands back every attached client key, the entry is
    /// removed, and each of those clients is closed with it. After this, no
    /// client that exchanged traffic over the server survives it.
    pub fn server_teardown(&mut self, srv_key: &Vec<u8>)
        requires
            old(self).wf(),
        ensures
            final(self).wf(),
            !final(self).has_server(srv_key@),
            forall|k: Seq<u8>|
                k != srv_key@ ==> #[trigger] final(self).has_server(k) == old(self).has_server(k),
            forall|k: Seq<u8>|
                k != srv_key@ && old(self).has_server(k) ==> #[trigger] final(self).server_at(k)
                    == old(self).server_at(k),
            old(self).has_server(srv_key@) ==> forall|j: int|
                0 <= j < old(self).server_at(srv_key@).attached().len() ==> !final(self).has_client(#[trigger] old(self).server_at(srv_key@).attached()[j]),
            old(self).has_server(srv_key@) ==> forall|k: Seq<u8>|
                !old(self).server_at(srv_key@).attached().contains(k) ==> #[trigger] final(self).has_client(k) == old(self).has_client(k),
            !old(self).has_server(srv_key@) ==> final(self).clients == old(self).clients,
    {
        match self.find_server(srv_key) {
            None => {
                self.del_server_sender(srv_key);
            },
            Some(i) => {
                proof {
                    old(self).lemma_server_entry(srv_key@, i as int);
                }
                let mut entry = self.servers.remove(i);
                let keys = entry.sender.detach_all();
                self.servers.insert(i, entry);
                proof {
                    let pre = *old(self);
                    let post = *self;
                    assert(post.servers@.len() == pre.servers@.len());
                    assert(forall|j: int|
                        0 <= j < post.servers@.len() && j != i ==> post.servers@[j]
                            == pre.servers@[j]);
                    assert(post.servers@[i as int].key@ == pre.servers@[i as int].key@);
                    lemma_server_update_frame(pre, post, i as int);
                    assert(byte_seqs(keys@) == pre.server_at(srv_key@).attached());
                }
                let ghost mid = *self;
                self.server_close(srv_key, &keys);
                proof {
                    let pre = *old(self);
                    let post = *self;
                    assert forall|k: Seq<u8>|
                        k != srv_key@ && pre.has_server(k) implies #[trigger] post.server_at(k)
                            == pre.server_at(k) by {
                        assert(mid.has_server(k) == pre.has_server(k));
                        assert(mid.server_at(k) == pre.server_at(k));
                        assert(post.server_at(k) == mid.server_at(k));
                    }
                    assert forall|k: Seq<u8>|
                        k != srv_key@ implies #[trigger] post.has_server(k) == pre.has_server(
                        k,
                    ) by {
                        assert(post.has_server(k) == mid.has_server(k));
                        assert(mid.has_server(k) == pre.has_server(k));
                    }
                    let att = pre.server_at(srv_key@).attached();
                    assert forall|j: int| 0 <= j < att.len() implies !post.has_client(
                        #[trigger] att[j],
                    ) by {
                        assert(byte_seqs(keys@)[j] == keys@[j]@);
                        assert(!post.has_client(keys@[j]@));
                    }
                    assert forall|k: Seq<u8>|
                        !att.contains(k) implies #[trigger] post.has_client(k) == pre.has_client(
                        k,
                    ) by {
                        assert(!byte_seqs(keys@).contains(k)) by {
                            if byte_seqs(keys@).contains(k) {
                                let j = choose|j: int|
                                    0 <= j < byte_seqs(keys@).len() && byte_seqs(keys@)[j] == k;
                                assert(att[j] == k);
                            }
                        }
                        assert(mid.has_client(k) == pre.has_client(k));
                    }
                }
            },
        }
    }

    /// Hands the HTTP handler the oldest reply payload queued for a client,
    /// if any: replies leave in the order they were delivered.
    pub fn client_take_message(&mut self, cli_key: &Vec<u8>) -> (r: Option<Vec<u8>>)
        requires
            old(self).wf(),
        ensures
            final(self).wf(),
            final(self).servers == old(self).servers,
            forall|k: Seq<u8>| #[trigger] final(self).has_client(k) == old(self).has_client(k),
            forall|k: Seq<u8>|
                k != cli_key@ && old(self).has_client(k) ==> #[trigger] final(self).client_at(k)
                    == old(self).client_at(k),
            !old(self).has_client(cli_key@) ==> r is None && final(self).clients == old(self).clients,
            old(self).has_client(cli_key@) ==> final(self).client_at(cli_key@).expired_at == old(self).client_at(cli_key@).expired_at,
            old(self).has_client(cli_key@) && old(self).client_at(cli_key@).replies().len() == 0
                ==> r is None && final(self).client_at(cli_key@).replies() == old(self).client_at(
                cli_key@,
            ).replies(),
            old(self).has_client(cli_key@) && old(self).client_at(cli_key@).replies().len() > 0
                ==> (r matches Some(p) && p@ == old(self).client_at(cli_key@).replies()[0] && final(self).client_at(cli_key@).replies() == old(self).client_at(
                cli_key@,
            ).replies().drop_first()),
    {
        match self.find_client(cli_key) {
            None => None,
            Some(i) => {
                proof {
                    old(self).lemma_client_entry(cli_key@, i as int);
                }
                let mut entry = self.clients.remove(i);
                let taken = entry.receiver.take_message();
                self.clients.insert(i, entry);
                proof {
                    let pre = *old(self);
                    let post = *self;
                    assert(post.clients@.len() == pre.clients@.len());
                    assert(forall|j: int|
                        0 <= j < post.clients@.len() && j != i ==> post.clients@[j]
                            == pre.clients@[j]);
                    assert(post.clients@[i as int].key@ == pre.clients@[i as int].key@);
                    lemma_client_update_frame(pre, post, i as int);
                }
                taken
            },
        }
    }

    /// The janitor's sweep: evicts every client session whose deadline has
    /// passed, and nothing else.
    pub fn flush_client(&mut self, now: u64)
        requires
            old(self).wf(),
        ensures
            final(self).wf(),
            final(self).servers == old(self).servers,
            final(self).clients@ == old(self).clients@.filter(
                |e: ClientEntry| e.receiver.expired_at >= now,
            ),
            forall|k: Seq<u8>| #[trigger]
                final(self).has_client(k) <==> old(self).has_client(k) && old(self).client_at(
                    k,
                ).expired_at >= now,
            forall|k: Seq<u8>| #[trigger]
                final(self).has_client(k) ==> final(self).client_at(k) == old(self).client_at(k),
    {
        let ghost keep = |e: ClientEntry| e.receiver.expired_at >= now;
        let mut rest: Vec<ClientEntry> = Vec::new();
        core::mem::swap(&mut rest, &mut self.clients);
        let ghost orig = rest@;
        let total: usize = rest.len();
        proof {
            assert(self.clients@ =~= orig.subrange(0, 0).filter(keep)) by {
                reveal(Seq::filter);
                assert(orig.subrange(0, 0) =~= Seq::<ClientEntry>::empty());
            }
        }
        let mut i: usize = 0;
        while rest.len() > 0
            invariant
                i <= total,
                orig.len() == total,
                rest@ == orig.subrange(i as int, orig.len() as int),
                self.clients@ == orig.subrange(0, i as int).filter(keep),
                self.servers == old(self).servers,
                keep == (|e: ClientEntry| e.receiver.expired_at >= now),
            decreases rest@.len(),
        {
            let entry = rest.remove(0);
            proof {
                assert(entry == orig[i as int]);
                assert(rest@ =~= orig.subrange(i + 1, orig.len() as int));
            }
            if entry.receiver.expired_at >= now {
                self.clients.push(entry);
            }
            proof {
                reveal(Seq::filter);
                assert(orig.subrange(0, i + 1).drop_last() =~= orig.subrange(0, i as int));
                assert(orig.subrange(0, i + 1).last() == orig[i as int]);
                if keep(orig[i as int]) {
                    assert(self.clients@ =~= orig.subrange(0, i + 1).filter(keep));
                } else {
                    assert(self.clients@ =~= orig.subrange(0, i + 1).filter(keep));
                }
            }
            i = i + 1;
        }
        proof {
            assert(orig.subrange(0, orig.len() as int) =~= orig);
            let pre = *old(self);
            let post = *self;
            assert(post.clients@ == orig.filter(keep));
            lemma_filter_distinct_client_keys(orig, keep);
            assert forall|k: Seq<u8>| #[trigger]
                post.has_client(k) <==> pre.has_client(k) && pre.client_at(k).expired_at
                    >= now by {
                if post.has_client(k) {
                    let j = choose|j: int|
                        0 <= j < post.clients@.len() && post.client_keys()[j] == k;
                    assert(post.clients@[j].key@ == k);
                    lemma_filter_subset(orig, keep);
                    assert(orig.contains(orig.filter(keep)[j]));
                    orig.lemma_filter_pred(keep, j);
                    let oi = choose|oi: int| 0 <= oi < orig.len() && orig[oi] == post.clients@[j];
                    assert(keep(orig[oi]));
                    pre.lemma_client_entry(k, oi);
                }
                if pre.has_client(k) && pre.client_at(k).expired_at >= now {
                    let oi = choose|oi: int|
                        0 <= oi < pre.clients@.len() && pre.client_keys()[oi] == k;
                    assert(pre.clients@[oi].key@ == k);
                    pre.lemma_client_entry(k, oi);
                    assert(keep(orig[oi]));
                    orig.lemma_filter_contains(keep, oi);
                    let j = choose|j: int|
                        0 <= j < orig.filter(keep).len() && orig.filter(keep)[j] == orig[oi];
                    assert(post.client_keys()[j] == k);
                }
            }
            assert forall|k: Seq<u8>| #[trigger]
                post.has_client(k) implies post.client_at(k) == pre.client_at(k) by {
                let j = choose|j: int| 0 <= j < post.clients@.len() && post.client_keys()[j] == k;
                assert(post.clients@[j].key@ == k);
                post.lemma_client_entry(k, j);
                lemma_filter_subset(orig, keep);
                assert(orig.contains(orig.filter(keep)[j]));
                let oi = choose|oi: int| 0 <= oi < orig.len() && orig[oi] == post.clients@[j];
                pre.lemma_client_entry(k, oi);
            }
        }
    }
}

/// Two directories whose server entries agree except for one entry whose key
/// is unchanged agree on membership everywhere, and on the session under
/// every other key.
proof fn lemma_server_update_frame(pre: AppState, post: AppState, i: int)
    requires
        distinct_server_keys(pre.servers@),
        0 <= i < pre.servers@.len(),
        post.servers@.len() == pre.servers@.len(),
        forall|j: int| 0 <= j < pre.servers@.len() && j != i ==> post.servers@[j] == pre.servers@[j],
        post.servers@[i].key@ == pre.servers@[i].key@,
    ensures
        distinct_server_keys(post.servers@),
        forall|k: Seq<u8>| #[trigger] post.has_server(k) == pre.has_server(k),
        forall|k: Seq<u8>|
            k != pre.servers@[i].key@ && pre.has_server(k) ==> #[trigger] post.server_at(k)
                == pre.server_at(k),
        post.server_at(pre.servers@[i].key@) == post.servers@[i].sender,
        pre.server_at(pre.servers@[i].key@) == pre.servers@[i].sender,
        pre.has_server(pre.servers@[i].key@),
{
    assert(post.server_keys() =~= pre.server_keys());
    assert(distinct_server_keys(post.servers@)) by {
        assert forall|ii: int, jj: int|
            0 <= ii < jj < post.servers@.len() implies post.servers@[ii].key@
            != post.servers@[jj].key@ by {
            assert(post.servers@[ii].key@ == pre.servers@[ii].key@);
            assert(post.servers@[jj].key@ == pre.servers@[jj].key@);
        }
    }
    pre.lemma_server_entry(pre.servers@[i].key@, i);
    post.lemma_server_entry(pre.servers@[i].key@, i);
    assert forall|k: Seq<u8>|
        k != pre.servers@[i].key@ && pre.has_server(k) implies #[trigger] post.server_at(k)
            == pre.server_at(k) by {
        let oi = choose|oi: int| 0 <= oi < pre.servers@.len() && pre.server_keys()[oi] == k;
        assert(pre.servers@[oi].key@ == k);
        pre.lemma_server_entry(k, oi);
        assert(post.servers@[oi] == pre.servers@[oi]);
        post.lemma_server_entry(k, oi);
    }
}

/// Every element of a filtered sequence is drawn from the sequence it
/// was filtered from.
proof fn lemma_filter_subset<A>(s: Seq<A>, pred: spec_fn(A) -> bool)
    ensures
        forall|j: int|
            0 <= j < s.filter(pred).len() ==> s.contains(#[trigger] s.filter(pred)[j]),
    decreases s.len(),
{
    reveal(Seq::filter);
    if s.len() > 0 {
        let d = s.drop_last();
        lemma_filter_subset(d, pred);
        assert forall|j: int| 0 <= j < s.filter(pred).len() implies s.contains(
            #[trigger] s.filter(pred)[j],
        ) by {
            if j < d.filter(pred).len() {
                assert(s.filter(pred)[j] == d.filter(pred)[j]);
                assert(d.contains(d.filter(pred)[j]));
                let i = choose|i: int| 0 <= i < d.len() && d[i] == d.filter(pred)[j];
                assert(s[i] == s.filter(pred)[j]);
            } else {
                assert(s.filter(pred)[j] == s.last());
                assert(s[s.len() - 1] == s.filter(pred)[j]);
            }
        }
    }
}

/// Filtering keeps client keys distinct.
proof fn lemma_filter_distinct_client_keys(s: Seq<ClientEntry>, pred: spec_fn(ClientEntry) -> bool)
    requires
        forall|i: int, j: int| 0 <= i < j < s.len() ==> s[i].key@ != s[j].key@,
    ensures
        forall|i: int, j: int|
            0 <= i < j < s.filter(pred).len() ==> s.filter(pred)[i].key@ != s.filter(pred)[j].key@,
    decreases s.len(),
{
    reveal(Seq::filter);
    if s.len() > 0 {
        let d = s.drop_last();
        lemma_filter_distinct_client_keys(d, pred);
        lemma_filter_subset(d, pred);
        if pred(s.last()) {
            assert forall|i: int, j: int|
                0 <= i < j < s.filter(pred).len() implies s.filter(pred)[i].key@ != s.filter(
                pred,
            )[j].key@ by {
                if j < d.filter(pred).len() {
                    assert(s.filter(pred)[i] == d.filter(pred)[i]);
                    assert(s.filter(pred)[j] == d.filter(pred)[j]);
                } else {
                    assert(s.filter(pred)[j] == s.last());
                    assert(s.filter(pred)[i] == d.filter(pred)[i]);
                    assert(d.contains(d.filter(pred)[i]));
                    let oi = choose|oi: int| 0 <= oi < d.len() && d[oi] == d.filter(pred)[i];
                    assert(s[oi] == d.filter(pred)[i]);
                    assert(s[oi].key@ != s[s.len() - 1].key@);
                }
            }
        }
    }
}

/// Two directories whose server entries agree except for one pushed entry
/// agree on every other key's membership.
proof fn lemma_push_keeps_other_server_keys(pre: AppState, post: AppState, k: Seq<u8>, n: int)
    requires
        post.servers@.len() == n + 1,
        pre.servers@.len() == n,
        forall|i: int| 0 <= i < n ==> post.servers@[i] == pre.servers@[i],
        post.servers@[n].key@ != k,
    ensures
        post.has_server(k) == pre.has_server(k),
{
    if pre.has_server(k) {
        let i = choose|i: int| 0 <= i < pre.server_keys().len() && pre.server_keys()[i] == k;
        assert(post.server_keys()[i] == k);
    }
    if post.has_server(k) {
        let i = choose|i: int| 0 <= i < post.server_keys().len() && post.server_keys()[i] == k;
        assert(i < n);
        assert(pre.server_keys()[i] == k);
    }
}

/// Two directories whose server entries agree except for one removed entry
/// agree on every other key's membership.
proof fn lemma_remove_keeps_other_server_keys(pre: AppState, post: AppState, k: Seq<u8>, i: int)
    requires
        0 <= i < pre.servers@.len(),
        post.servers@ == pre.servers@.remove(i),
        pre.servers@[i].key@ != k,
    ensures
        post.has_server(k) == pre.has_server(k),
{
    if pre.has_server(k) {
        let oi = choose|oi: int| 0 <= oi < pre.server_keys().len() && pre.server_keys()[oi] == k;
        assert(pre.servers@[oi].key@ == k);
        let ni = if oi < i {
            oi
        } else {
            oi - 1
        };
        assert(post.servers@[ni] == pre.servers@[oi]);
        assert(post.server_keys()[ni] == k);
    }
    if post.has_server(k) {
        let ni = choose|ni: int| 0 <= ni < post.server_keys().len() && post.server_keys()[ni] == k;
        let oi = if ni < i {
            ni
        } else {
            ni + 1
        };
        assert(post.servers@[ni] == pre.servers@[oi]);
        assert(pre.server_keys()[oi] == k);
    }
}


/// At most one server session per key: in a well-formed directory, two
/// server entries bearing the same key are one and the same. Together with
/// [`AppState::set_server_sender`], which leaves a taken key's session in
/// place, concurrent upgrades with one key end with exactly one live
/// session under it.
pub proof fn lemma_at_most_one_server(s: AppState, k: Seq<u8>, i: int, j: int)
    requires
        s.wf(),
        0 <= i < s.servers@.len(),
        0 <= j < s.servers@.len(),
        s.servers@[i].key@ == k,
        s.servers@[j].key@ == k,
    ensures
        i == j,
{
    if i < j {
        assert(s.servers@[i].key@ != s.servers@[j].key@);
    }
    if j < i {
        assert(s.servers@[j].key@ != s.servers@[i].key@);
    }
}

/// At most one client session per key, likewise.
pub proof fn lemma_at_most_one_client(s: AppState, k: Seq<u8>, i: int, j: int)
    requires
        s.wf(),
        0 <= i < s.clients@.len(),
        0 <= j < s.clients@.len(),
        s.clients@[i].key@ == k,
        s.clients@[j].key@ == k,
    ensures
        i == j,
{
    if i < j {
        assert(s.clients@[i].key@ != s.clients@[j].key@);
    }
    if j < i {
        assert(s.clients@[j].key@ != s.clients@[i].key@);
    }
}

} // verus!
