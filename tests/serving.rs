use embedded_recruitment_task::lifecycle::{Phase, StopNotice};
use embedded_recruitment_task::message::{
    decode_server, encode_client, AddRequest, AddResponse, ClientMessage, EchoMessage,
    ServerMessage,
};
use embedded_recruitment_task::service::{
    add_wrapping, handle_request, on_accept, on_conn_event, respond, AcceptAction, AcceptEvent,
    ConnEvent, WorkerAction,
};

fn echo_req(s: &str) -> ClientMessage {
    ClientMessage::EchoMessage(EchoMessage { content: s.to_string() })
}

fn add_req(a: i32, b: i32) -> ClientMessage {
    ClientMessage::AddRequest(AddRequest { a, b })
}

fn round(req: &ClientMessage) -> ServerMessage {
    match on_conn_event(ConnEvent::Received(encode_client(req))) {
        WorkerAction::Reply(out) => decode_server(&out).unwrap(),
        other => panic!("unexpected action {:?}", other),
    }
}

#[test]
fn echo_is_identity() {
    for s in ["", "ping", "a longer message with spaces"] {
        assert_eq!(
            respond(echo_req(s)),
            ServerMessage::EchoMessage(EchoMessage { content: s.to_string() })
        );
        let bytes = encode_client(&echo_req(s));
        assert_eq!(handle_request(&bytes), Ok(bytes.clone()));
    }
}

#[test]
fn add_gives_sum() {
    assert_eq!(respond(add_req(2, 3)), ServerMessage::AddResponse(AddResponse { result: 5 }));
    assert_eq!(respond(add_req(-7, 3)), ServerMessage::AddResponse(AddResponse { result: -4 }));
    assert_eq!(respond(add_req(0, 0)), ServerMessage::AddResponse(AddResponse { result: 0 }));
}

#[test]
fn add_wraps_on_overflow() {
    assert_eq!(add_wrapping(i32::MAX, 1), i32::MIN);
    assert_eq!(add_wrapping(i32::MIN, -1), i32::MAX);
    assert_eq!(add_wrapping(i32::MAX, i32::MAX), -2);
    assert_eq!(
        respond(add_req(i32::MAX, 1)),
        ServerMessage::AddResponse(AddResponse { result: i32::MIN })
    );
}

#[test]
fn add_over_the_wire() {
    let bytes = encode_client(&add_req(2, 3));
    assert_eq!(handle_request(&bytes), Ok(vec![0x12, 0x02, 0x08, 0x05]));
}

#[test]
fn zero_byte_read_closes_connection() {
    assert_eq!(on_conn_event(ConnEvent::Received(vec![])), WorkerAction::Close);
}

#[test]
fn malformed_request_closes_connection() {
    assert_eq!(on_conn_event(ConnEvent::Received(vec![0xFF, 0x01])), WorkerAction::Close);
    assert!(handle_request(&[0xFF, 0x01]).is_err());
}

#[test]
fn blocked_read_pauses_and_failure_retries() {
    assert_eq!(on_conn_event(ConnEvent::WouldBlock), WorkerAction::Pause);
    assert_eq!(on_conn_event(ConnEvent::IoFailed), WorkerAction::Retry);
}

#[test]
fn accept_decisions() {
    assert_eq!(on_accept(AcceptEvent::Accepted), AcceptAction::SpawnWorker);
    assert_eq!(on_accept(AcceptEvent::WouldBlock), AcceptAction::Pause);
    assert_eq!(on_accept(AcceptEvent::Failed), AcceptAction::LogAndContinue);
}

#[test]
fn start_then_stop() {
    let p = Phase::Idle;
    assert!(!p.is_running());
    let p = p.start();
    assert!(p.is_running());
    let (p, notice) = p.stop();
    assert_eq!(notice, StopNotice::Signalled);
    assert!(!p.is_running());
}

#[test]
fn stop_twice_is_a_no_op() {
    let (p1, n1) = Phase::Idle.start().stop();
    let (p2, n2) = p1.stop();
    assert_eq!(n1, StopNotice::Signalled);
    assert_eq!(n2, StopNotice::AlreadyStopped);
    assert_eq!(p1, p2);
    assert!(!p2.is_running());
}

#[test]
fn no_restart_after_stop() {
    let (p, _) = Phase::Idle.start().stop();
    assert_eq!(p.start(), Phase::Stopped);
    assert!(!p.start().is_running());
    let (q, n) = Phase::Idle.stop();
    assert_eq!(n, StopNotice::AlreadyStopped);
    assert!(!q.start().is_running());
}

#[test]
fn phase_codes_round_trip() {
    for p in [Phase::Idle, Phase::Running, Phase::Stopped] {
        assert_eq!(Phase::from_code(p.code()), p);
    }
    assert_eq!(Phase::from_code(9), Phase::Stopped);
}

#[test]
fn ping_add_then_stop() {
    let phase = Phase::Idle.start();
    assert!(phase.is_running());
    assert_eq!(
        round(&echo_req("ping")),
        ServerMessage::EchoMessage(EchoMessage { content: "ping".to_string() })
    );
    assert_eq!(round(&add_req(2, 3)), ServerMessage::AddResponse(AddResponse { result: 5 }));
    let (phase, notice) = phase.stop();
    assert_eq!(notice, StopNotice::Signalled);
    assert!(!phase.is_running());
}

#[test]
fn two_clients_no_cross_talk() {
    let mut expected_a = Vec::new();
    let mut expected_b = Vec::new();
    let mut got_a = Vec::new();
    let mut got_b = Vec::new();
    for i in 0..10i32 {
        let (ra, ea) = if i % 2 == 0 {
            let s = format!("a{}", i);
            (echo_req(&s), ServerMessage::EchoMessage(EchoMessage { content: s }))
        } else {
            (add_req(i, 100), ServerMessage::AddResponse(AddResponse { result: i + 100 }))
        };
        let (rb, eb) = if i % 2 == 0 {
            (add_req(i, -1000), ServerMessage::AddResponse(AddResponse { result: i - 1000 }))
        } else {
            let s = format!("b{}", i);
            (echo_req(&s), ServerMessage::EchoMessage(EchoMessage { content: s }))
        };
        expected_a.push(ea);
        expected_b.push(eb);
        got_b.push(round(&rb));
        got_a.push(round(&ra));
    }
    assert_eq!(got_a, expected_a);
    assert_eq!(got_b, expected_b);
}

#[test]
fn malformed_peer_leaves_other_connection_alone() {
    let mut a_open = true;
    let mut b_replies = Vec::new();
    for i in 0..4i32 {
        if a_open {
            let action = on_conn_event(ConnEvent::Received(vec![0x0A, 0x09, 0x01]));
            assert_eq!(action, WorkerAction::Close);
            a_open = false;
        }
        b_replies.push(round(&add_req(i, i)));
    }
    assert!(!a_open);
    let want: Vec<ServerMessage> = (0..4i32)
        .map(|i| ServerMessage::AddResponse(AddResponse { result: 2 * i }))
        .collect();
    assert_eq!(b_replies, want);
}
