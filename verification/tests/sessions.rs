use file_tunnel::registry::AppState;
use file_tunnel::reply::assemble_reply;
use file_tunnel::session::{ClientReceiver, ProxyMessage, ServerSender};

fn key(s: &str) -> Vec<u8> {
    s.as_bytes().to_vec()
}

#[test]
fn touch_extends_near_deadline_generously() {
    // fresh at 100: deadline 110; touched at 109 the deadline is near,
    // so it moves by ten
    let mut c = ClientReceiver::new(100);
    assert_eq!(c.expired_at, 110);
    c.touch(109);
    assert_eq!(c.expired_at, 120);
}

#[test]
fn touch_nudges_comfortable_deadline() {
    // fresh at 100: deadline 110; touched at 100 the deadline is nine or
    // more away, so it moves by five
    let mut c = ClientReceiver::new(100);
    c.touch(100);
    assert_eq!(c.expired_at, 115);
}

#[test]
fn touch_revives_expired_session() {
    let mut c = ClientReceiver::new(100);
    assert!(c.expired(111));
    assert!(!c.expired(110));
    c.touch(200);
    assert_eq!(c.expired_at, 230);
    assert!(!c.expired(230));
}

#[test]
fn touch_never_decreases_deadline() {
    let mut c = ClientReceiver::new(100);
    let mut last = c.expired_at;
    for now in [100u64, 105, 109, 111, 150, 150, 151, 400] {
        c.touch(now);
        assert!(c.expired_at >= last);
        last = c.expired_at;
    }
}

#[test]
fn delay_and_reset_follow_their_policies() {
    let mut c = ClientReceiver::new(100);
    c.delay_expired_at(100, Some(7));
    assert_eq!(c.expired_at, 117);
    c.reset_exipred_at(300);
    assert_eq!(c.expired_at, 330);
    // without an explicit delay the deadline moves by ten only while it
    // has not fallen more than nine behind the clock
    c.delay_expired_at(330, None);
    assert_eq!(c.expired_at, 340);
    c.delay_expired_at(1000, None);
    assert_eq!(c.expired_at, 340);
}

#[test]
fn reply_queue_keeps_order_and_caps() {
    let mut c = ClientReceiver::new(0);
    c.deliver(b"one".to_vec());
    c.deliver(b"two".to_vec());
    for i in 0..100u32 {
        c.deliver(i.to_le_bytes().to_vec());
    }
    // the queue holds 64 payloads; later ones were dropped
    assert_eq!(c.receiver().len(), 64);
    assert_eq!(c.take_message(), Some(b"one".to_vec()));
    assert_eq!(c.take_message(), Some(b"two".to_vec()));
}

#[test]
fn server_outbound_keeps_order_and_caps() {
    let mut s = ServerSender::new();
    for i in 0..256u32 {
        assert!(s.send(ProxyMessage::Text(i.to_le_bytes().to_vec())).is_ok());
    }
    assert!(s.send(ProxyMessage::Text(b"late".to_vec())).is_err());
    match s.take_outbound() {
        Some(ProxyMessage::Text(first)) => assert_eq!(first, 0u32.to_le_bytes().to_vec()),
        other => panic!("unexpected frame: {:?}", other),
    }
}

#[test]
fn attach_is_idempotent_and_detach_hands_keys_back() {
    let mut s = ServerSender::new();
    s.add_client_key(&key("a"));
    s.add_client_key(&key("b"));
    s.add_client_key(&key("a"));
    let keys = s.detach_all();
    assert_eq!(keys, vec![key("a"), key("b")]);
    assert_eq!(s.detach_all(), Vec::<Vec<u8>>::new());
}

#[test]
fn second_server_under_a_key_is_refused() {
    let mut st = AppState::new();
    let mut first = ServerSender::new();
    first.send(ProxyMessage::Text(b"queued".to_vec())).unwrap();
    st.server_open(&key("srv1"), first);
    // a second upgrade with the same key leaves the first session in place
    st.server_open(&key("srv1"), ServerSender::new());
    let frame = st.server_take_outbound(&key("srv1"));
    match frame {
        Some(ProxyMessage::Text(bytes)) => assert_eq!(bytes, b"queued".to_vec()),
        other => panic!("the first session's queue was lost: {:?}", other),
    }
}

#[test]
fn route_reply_reaches_only_its_client() {
    let mut st = AppState::new();
    st.server_open(&key("srv1"), ServerSender::new());
    st.client_open(&key("alice"), 100);
    st.client_open(&key("bob"), 100);
    let routed = st
        .route_reply(&key("srv1"), &ProxyMessage::Text(b"005alicehello\0\0\0\0".to_vec()))
        .unwrap();
    assert_eq!(routed, key("alice"));
    assert_eq!(st.client_receiver(&key("alice")).unwrap().receiver().len(), 1);
    assert_eq!(st.client_receiver(&key("bob")).unwrap().receiver().len(), 0);
    assert_eq!(st.client_take_message(&key("alice")), Some(b"hello\0\0\0\0".to_vec()));
}

#[test]
fn route_reply_drops_malformed_frames() {
    let mut st = AppState::new();
    st.server_open(&key("srv1"), ServerSender::new());
    st.client_open(&key("c1"), 0);
    match st.route_reply(&key("srv1"), &ProxyMessage::Text(b"xx".to_vec())) {
        Err(e) => assert!(matches!(e.kind(), file_tunnel::util::ErrKind::InvalidInput)),
        Ok(_) => panic!("a malformed frame was routed"),
    }
    // the session survives: the server is still registered and the
    // client's queue is untouched
    assert!(st.get_server_sender(&key("srv1")).is_some());
    assert_eq!(st.client_receiver(&key("c1")).unwrap().receiver().len(), 0);
}

#[test]
fn split_reply_assembles_across_frames() {
    let mut st = AppState::new();
    st.server_open(&key("srv1"), ServerSender::new());
    st.client_open(&key("c42"), 100);
    st.route_reply(&key("srv1"), &ProxyMessage::Text(b"003c42AAAA".to_vec()))
        .unwrap();
    st.route_reply(&key("srv1"), &ProxyMessage::Text(b"003c42BBBB\0\0\0\0".to_vec()))
        .unwrap();
    let chunks = st.client_receiver(&key("c42")).unwrap().receiver().clone();
    assert_eq!(assemble_reply(&chunks), Some(b"AAAABBBB".to_vec()));
}

#[test]
fn cascade_close_removes_attached_clients() {
    let mut st = AppState::new();
    st.server_open(&key("srv1"), ServerSender::new());
    st.client_open(&key("c1"), 100);
    st.client_open(&key("c2"), 100);
    st.route_reply(&key("srv1"), &ProxyMessage::Text(b"002c1data\0\0\0\0".to_vec()))
        .unwrap();
    // c1 exchanged traffic over srv1; c2 never did
    let mut st2 = st;
    let attached = vec![key("c1")];
    st2.server_close(&key("srv1"), &attached);
    assert!(st2.get_server_sender(&key("srv1")).is_none());
    assert!(st2.client_receiver(&key("c1")).is_none());
    assert!(st2.client_receiver(&key("c2")).is_some());
}

#[test]
fn janitor_evicts_untouched_client() {
    let mut st = AppState::new();
    st.client_open(&key("c9"), 1000);
    // not touched for forty seconds with no server replies
    st.flush_client(1040);
    assert!(st.client_receiver(&key("c9")).is_none());
    assert_eq!(st.client_take_message(&key("c9")), None);
}

#[test]
fn janitor_keeps_live_clients() {
    let mut st = AppState::new();
    st.client_open(&key("young"), 1000);
    st.client_open(&key("old"), 900);
    st.flush_client(1005);
    assert!(st.client_receiver(&key("young")).is_some());
    assert!(st.client_receiver(&key("old")).is_none());
}

#[test]
fn teardown_cascades_to_traffic_clients() {
    let mut st = AppState::new();
    st.server_open(&key("srv1"), ServerSender::new());
    st.client_open(&key("c1"), 100);
    st.client_open(&key("c2"), 100);
    // only c1 exchanges traffic over srv1
    st.route_reply(&key("srv1"), &ProxyMessage::Text(b"002c1data\0\0\0\0".to_vec()))
        .unwrap();
    st.server_teardown(&key("srv1"));
    assert!(st.get_server_sender(&key("srv1")).is_none());
    assert!(st.client_receiver(&key("c1")).is_none());
    assert!(st.client_receiver(&key("c2")).is_some());
}
