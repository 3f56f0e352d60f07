//! The comet channel: connect handshake, frame handling, worker plans and
//! the two-request bound.

use maruska::client::{Client, Message};
use maruska::comet::{CometError, CometState, WorkerPlan};
use maruska::json::{parse_bytes, Value};

fn s(x: &str) -> Value {
    Value::Str(x.as_bytes().to_vec())
}

fn obj(pairs: Vec<(&str, Value)>) -> Value {
    Value::Obj(
        pairs
            .into_iter()
            .map(|(k, v)| (k.as_bytes().to_vec(), v))
            .collect(),
    )
}

#[test]
fn connect_posts_empty_batch() {
    let mut ch = CometState::new();
    let body = ch.begin_connect();
    assert_eq!(body, b"[]".to_vec());
    assert_eq!(ch.in_flight, 1);

    // the server answers with a session id and one welcome message
    let frame = parse_bytes(br#"["s1",[{"type":"welcome"}]]"#).expect("should parse");
    let msgs = match ch.finish_exchange(frame) {
        Ok(m) => m,
        Err(_) => panic!("frame should be accepted"),
    };
    assert_eq!(ch.session_id, Some(b"s1".to_vec()));
    assert_eq!(ch.in_flight, 0);
    assert_eq!(msgs.len(), 1);

    let mut c = Client::new();
    let r = c.handle_message(msgs.into_iter().next().unwrap());
    assert!(matches!(r, Ok(Message::Welcome)));
}

#[test]
fn session_id_rotates_but_never_unsets() {
    let mut ch = CometState::new();
    ch.begin_connect();
    let f1 = parse_bytes(br#"["s1",[]]"#).unwrap();
    assert!(ch.finish_exchange(f1).is_ok());
    assert_eq!(ch.session_id, Some(b"s1".to_vec()));

    // the next response rotates the session id
    let body = ch.try_begin_poll().expect("idle channel should poll");
    assert_eq!(body, br#"["s1"]"#.to_vec());
    let f2 = parse_bytes(br#"["s2",[]]"#).unwrap();
    assert!(ch.finish_exchange(f2).is_ok());
    assert_eq!(ch.session_id, Some(b"s2".to_vec()));

    // a malformed frame reports the failure and keeps the session
    ch.try_begin_poll().unwrap();
    let bad = parse_bytes(br#"[17,[]]"#).unwrap();
    match ch.finish_exchange(bad) {
        Err(CometError::MalformedResponse((name, _))) => {
            assert_eq!(name, "found no session id");
        }
        _ => panic!("expected a malformed-response error"),
    }
    assert_eq!(ch.session_id, Some(b"s2".to_vec()));
}

#[test]
fn missing_message_array_is_malformed() {
    let mut ch = CometState::new();
    ch.begin_connect();
    let frame = parse_bytes(br#"["s1"]"#).unwrap();
    match ch.finish_exchange(frame) {
        Err(CometError::MalformedResponse((name, _))) => {
            assert_eq!(name, "found no msg content");
        }
        _ => panic!("expected a malformed-response error"),
    }
    // the session id was still saved before the failure
    assert_eq!(ch.session_id, Some(b"s1".to_vec()));
}

#[test]
fn outbound_batch_keeps_order_and_session_prefix() {
    let mut ch = CometState::new();
    ch.begin_connect();
    let f = parse_bytes(br#"["s1",[]]"#).unwrap();
    assert!(ch.finish_exchange(f).is_ok());

    ch.enqueue(obj(vec![("type", s("request_login_token"))]));
    ch.enqueue(obj(vec![("type", s("poke"))]));
    let body = ch.try_begin_send().expect("queued traffic should go out");
    assert_eq!(
        body,
        br#"["s1",{"type":"request_login_token"},{"type":"poke"}]"#.to_vec()
    );
    assert_eq!(ch.outbound.len(), 0);
}

#[test]
fn backpressure_never_exceeds_two() {
    let mut ch = CometState::new();
    ch.begin_connect();
    let f = parse_bytes(br#"["s1",[]]"#).unwrap();
    assert!(ch.finish_exchange(f).is_ok());

    let mut max_in_flight = ch.in_flight;
    // worker one finds nothing queued and starts the long poll
    match ch.worker_step() {
        WorkerPlan::LongPoll(_) => {}
        _ => panic!("an idle channel should long-poll"),
    }
    max_in_flight = max_in_flight.max(ch.in_flight);

    // worker two finds traffic and dispatches it
    ch.enqueue(obj(vec![("type", s("request_login_token"))]));
    match ch.worker_step() {
        WorkerPlan::Dispatch(_) => {}
        _ => panic!("queued traffic should be dispatched"),
    }
    max_in_flight = max_in_flight.max(ch.in_flight);
    assert_eq!(ch.in_flight, 2);

    // both workers are busy; more traffic queues up and waits
    ch.enqueue(obj(vec![("type", s("poke"))]));
    assert_eq!(ch.in_flight, 2);
    max_in_flight = max_in_flight.max(ch.in_flight);

    // one exchange ends; its worker picks the queued message up
    let f2 = parse_bytes(br#"["s1",[]]"#).unwrap();
    assert!(ch.finish_exchange(f2).is_ok());
    match ch.worker_step() {
        WorkerPlan::Dispatch(_) => {}
        _ => panic!("queued traffic should be dispatched"),
    }
    max_in_flight = max_in_flight.max(ch.in_flight);

    // with one poll and one send in flight, an idle worker holds
    let f3 = parse_bytes(br#"["s1",[]]"#).unwrap();
    assert!(ch.finish_exchange(f3).is_ok());
    ch.worker_step();
    max_in_flight = max_in_flight.max(ch.in_flight);

    assert!(max_in_flight <= 2);
}
