use file_tunnel::registry::AppState;
use file_tunnel::reply::{
    assemble_reply, await_decision, client_data_request, gone_response, offline_response,
    server_upgrade_request, timeout_response, welcome_body, ReplyCollector, TunnelResponse,
    UpgradeRefusal, REPLY_DEADLINE_SECS,
};
use file_tunnel::session::ProxyMessage;
use file_tunnel::session::ServerSender;
use file_tunnel::util::ErrKind;

fn key(s: &str) -> Vec<u8> {
    s.as_bytes().to_vec()
}

#[test]
fn happy_path_frames_and_replies() {
    let mut st = AppState::new();
    st.server_open(&key("srv1"), ServerSender::new());
    let body = b"{\"version\":1,\"command\":{\"ReadConfig\":{}}}".to_vec();
    let outcome = client_data_request(&mut st, &key("srv1"), &key("c42"), &body, 100);
    assert!(outcome.is_ok());
    // the broker ships exactly the framed request
    match st.server_take_outbound(&key("srv1")) {
        Some(ProxyMessage::Text(frame)) => assert_eq!(
            frame,
            b"003c42{\"version\":1,\"command\":{\"ReadConfig\":{}}}".to_vec()
        ),
        other => panic!("no frame queued: {:?}", other),
    }
    // the server answers in one frame, sentinel-terminated
    let reply =
        b"003c42{\"version\":1,\"status\":0,\"data\":{\"ReadConfig\":{\"path\":\"/\"}}}\0\0\0\0";
    st.route_reply(&key("srv1"), &ProxyMessage::Text(reply.to_vec()))
        .unwrap();
    let chunks = st.client_receiver(&key("c42")).unwrap().receiver().clone();
    assert_eq!(
        assemble_reply(&chunks),
        Some(b"{\"version\":1,\"status\":0,\"data\":{\"ReadConfig\":{\"path\":\"/\"}}}".to_vec())
    );
}

#[test]
fn offline_server_yields_404_with_envelope() {
    let mut st = AppState::new();
    let outcome = client_data_request(&mut st, &key("nope"), &key("c1"), &b"{}".to_vec(), 0);
    match outcome {
        Err(resp) => {
            assert_eq!(resp.status_code(), 404);
            match resp {
                TunnelResponse::Offline(body) => assert_eq!(
                    body,
                    "{\"version\":1,\"status\":403,\"data\":{\"Error\":{\"message\":\"share key may be off line\"}}}"
                ),
                other => panic!("wrong response: {:?}", other.status_code()),
            }
        }
        Ok(()) => panic!("an absent server was accepted"),
    }
    // no client session was opened for the failed request
    assert!(st.client_receiver(&key("c1")).is_none());
}

#[test]
fn missing_keys_yield_400() {
    let mut st = AppState::new();
    st.server_open(&key("srv1"), ServerSender::new());
    let r1 = client_data_request(&mut st, &Vec::new(), &key("c1"), &b"{}".to_vec(), 0);
    match r1 {
        Err(resp) => assert_eq!(resp.status_code(), 400),
        Ok(()) => panic!("an empty server key was accepted"),
    }
    let r2 = client_data_request(&mut st, &key("srv1"), &Vec::new(), &b"{}".to_vec(), 0);
    match r2 {
        Err(resp) => assert_eq!(resp.status_code(), 400),
        Ok(()) => panic!("an empty client key was accepted"),
    }
    let r3 = client_data_request(&mut st, &key("srv1"), &vec![b'x'; 256], &b"{}".to_vec(), 0);
    match r3 {
        Err(resp) => assert_eq!(resp.status_code(), 400),
        Ok(()) => panic!("an overlong client key was accepted"),
    }
}

#[test]
fn timeout_response_is_504_with_envelope() {
    let resp = timeout_response();
    assert_eq!(resp.status_code(), 504);
    match resp {
        TunnelResponse::TimedOut(body) => assert_eq!(
            body,
            "{\"version\":1,\"status\":403,\"data\":{\"Error\":{\"message\":\"receiving data from server time out\"}}}"
        ),
        _ => panic!("wrong variant"),
    }
    assert_eq!(REPLY_DEADLINE_SECS, 60);
}

#[test]
fn gone_response_is_403_with_envelope() {
    let resp = gone_response();
    assert_eq!(resp.status_code(), 403);
    match resp {
        TunnelResponse::Gone(body) => {
            assert!(body.starts_with("{\"version\":1,\"status\":403,"));
        }
        _ => panic!("wrong variant"),
    }
}

#[test]
fn server_drop_mid_wait_leaves_no_session() {
    let mut st = AppState::new();
    st.server_open(&key("srv1"), ServerSender::new());
    let outcome =
        client_data_request(&mut st, &key("srv1"), &key("c7"), &b"{}".to_vec(), 100);
    assert!(outcome.is_ok());
    // queueing the request attached the client to its server
    assert_eq!(
        st.get_server_sender(&key("srv1")).unwrap().client_keys,
        vec![key("c7")]
    );
    // the server socket closes while the reply is awaited; the teardown
    // cascades to the waiting client
    st.server_teardown(&key("srv1"));
    assert!(st.client_receiver(&key("c7")).is_none());
    // the handler, finding its session gone, answers 403
    assert_eq!(gone_response().status_code(), 403);
}

#[test]
fn full_outbound_queue_is_backpressure() {
    let mut st = AppState::new();
    st.server_open(&key("srv1"), ServerSender::new());
    for _ in 0..256 {
        st.server_send_text(&key("srv1"), &b"f".to_vec()).unwrap();
    }
    match st.server_send_text(&key("srv1"), &b"over".to_vec()) {
        Err(e) => assert!(matches!(e.kind(), ErrKind::WouldBlock)),
        Ok(()) => panic!("a full queue accepted a frame"),
    }
    let outcome = client_data_request(&mut st, &key("srv1"), &key("c1"), &b"{}".to_vec(), 0);
    match outcome {
        Err(resp) => assert_eq!(resp.status_code(), 502),
        Ok(()) => panic!("a full queue accepted a frame"),
    }
}

#[test]
fn send_to_unknown_server_is_not_found() {
    let mut st = AppState::new();
    let r = st.server_send_text(&key("ghost"), &b"m".to_vec());
    match r {
        Err(e) => assert!(matches!(e.kind(), ErrKind::NotFound)),
        Ok(()) => panic!("an unknown server took a frame"),
    }
    let rb = st.server_send_binary(&key("ghost"), b"m".to_vec());
    assert!(rb.is_err());
}

#[test]
fn request_touches_session_before_queueing() {
    let mut st = AppState::new();
    st.server_open(&key("srv1"), ServerSender::new());
    client_data_request(&mut st, &key("srv1"), &key("c1"), &b"{}".to_vec(), 1000).unwrap();
    // a fresh session starts ten seconds out and, like every request,
    // is touched: nine or more seconds remain, so five are added
    assert_eq!(st.client_receiver(&key("c1")).unwrap().expired_at, 1015);
    client_data_request(&mut st, &key("srv1"), &key("c1"), &b"{}".to_vec(), 1001).unwrap();
    // touched again while fourteen seconds remain: five more
    assert_eq!(st.client_receiver(&key("c1")).unwrap().expired_at, 1020);
}

#[test]
fn welcome_text_greets() {
    assert_eq!(welcome_body(), "Welcome To Use File Tunnel");
    assert_eq!(offline_response().status_code(), 404);
}

#[test]
fn upgrade_admission_registers_or_refuses() {
    let mut st = AppState::new();
    match server_upgrade_request(&mut st, &Vec::new(), ServerSender::new()) {
        Err(refusal) => {
            assert_eq!(refusal.status_code(), 400);
            assert_eq!(refusal.body(), "server key must be required");
        }
        Ok(()) => panic!("an upgrade without a key was admitted"),
    }
    assert!(server_upgrade_request(&mut st, &key("srv1"), ServerSender::new()).is_ok());
    assert!(st.get_server_sender(&key("srv1")).is_some());
    match server_upgrade_request(&mut st, &key("srv1"), ServerSender::new()) {
        Err(refusal) => {
            assert_eq!(refusal.status_code(), 409);
            assert_eq!(refusal.body(), "server key already connected");
            assert!(matches!(refusal, UpgradeRefusal::Conflict));
        }
        Ok(()) => panic!("a taken key was re-registered"),
    }
}

#[test]
fn await_decision_picks_the_prescribed_outcome() {
    // a complete body answers 200 with exactly that body
    let mut done = ReplyCollector::new();
    done.push_chunk(&b"reply\0\0\0\0".to_vec());
    assert!(done.done);
    match await_decision(done, true, 0, 60) {
        Err(TunnelResponse::Success(body)) => assert_eq!(body, b"reply".to_vec()),
        _ => panic!("a complete reply was not answered"),
    }
    // a session gone mid-wait answers 403
    match await_decision(ReplyCollector::new(), false, 0, 60) {
        Err(resp) => assert_eq!(resp.status_code(), 403),
        Ok(_) => panic!("a dead session kept the handler waiting"),
    }
    // a passed deadline answers 504
    match await_decision(ReplyCollector::new(), true, 61, 60) {
        Err(resp) => assert_eq!(resp.status_code(), 504),
        Ok(_) => panic!("a passed deadline kept the handler waiting"),
    }
    // otherwise the wait goes on
    assert!(await_decision(ReplyCollector::new(), true, 60, 60).is_ok());
}
