//! The protocol client: login flow, deferral, dispatch and the paginated
//! search pipeline.

use maruska::client::{Client, ClientError, Message, RequestStatus};
use maruska::comet::CometError;
use maruska::hash::md5;
use maruska::json::{get_field, Value};

fn s(x: &str) -> Value {
    Value::Str(x.as_bytes().to_vec())
}

fn obj(pairs: Vec<(&str, Value)>) -> Value {
    Value::Obj(
        pairs
            .into_iter()
            .map(|(k, v)| (k.as_bytes().to_vec(), v))
            .collect(),
    )
}

fn field<'a>(v: &'a Value, k: &str) -> &'a Value {
    get_field(v, k).expect("missing field")
}

fn str_of(v: &Value) -> Vec<u8> {
    match v {
        Value::Str(b) => b.clone(),
        _ => panic!("not a string"),
    }
}

fn int_of(v: &Value) -> u64 {
    match v {
        Value::Int(u) => *u,
        _ => panic!("not an integer"),
    }
}

fn type_of(m: &Value) -> Vec<u8> {
    str_of(field(m, "type"))
}

fn results_msg(token: u64, items: Vec<Value>) -> Value {
    obj(vec![
        ("type", s("query_media_results")),
        ("token", Value::Int(token)),
        ("results", Value::Arr(items)),
    ])
}

#[test]
fn chunk_size_table() {
    let mut c = Client::new();
    let sizes = [(0usize, 25usize), (60, 50), (150, 100), (450, 550), (900, 1000)];
    for (n, expect) in sizes.iter() {
        c.qm_results.clear();
        for _ in 0..*n {
            c.qm_results.push(Value::Null);
        }
        assert_eq!(c.qm_chunk_size(), *expect);
    }
}

#[test]
fn login_defer_and_flush() {
    let mut c = Client::new();
    c.do_login(b"alice".to_vec(), b"pw".to_vec());
    let out = c.take_outbound();
    assert_eq!(out.len(), 1);
    assert_eq!(type_of(&out[0]), b"request_login_token".to_vec());

    // a second login attempt while the token request is outstanding must
    // not issue another request
    c.do_login(b"alice".to_vec(), b"pw".to_vec());
    assert_eq!(c.take_outbound().len(), 0);

    let msg = obj(vec![("type", s("login_token")), ("login_token", s("T1"))]);
    let r = c.handle_message(msg);
    assert!(matches!(r, Ok(Message::LoginToken)));

    let out = c.take_outbound();
    assert_eq!(out.len(), 1);
    assert_eq!(type_of(&out[0]), b"login".to_vec());
    assert_eq!(str_of(field(&out[0], "username")), b"alice".to_vec());
    let mut salted = md5(b"pw");
    salted.extend_from_slice(b"T1");
    assert_eq!(str_of(field(&out[0], "hash")), md5(&salted));
}

#[test]
fn login_with_access_key() {
    let mut c = Client::new();
    let msg = obj(vec![("type", s("login_token")), ("login_token", s("T9"))]);
    assert!(matches!(c.handle_message(msg), Ok(Message::LoginToken)));
    c.do_login_accesskey(b"bob".to_vec(), b"AKEY".to_vec());
    let out = c.take_outbound();
    assert_eq!(out.len(), 1);
    assert_eq!(type_of(&out[0]), b"login_accessKey".to_vec());
    let mut salted = b"AKEY".to_vec();
    salted.extend_from_slice(b"T9");
    assert_eq!(str_of(field(&out[0], "hash")), md5(&salted));
}

#[test]
fn request_deferral() {
    let mut c = Client::new();
    assert!(matches!(
        c.do_request_from_key(b"key1".to_vec()),
        RequestStatus::Deferred
    ));
    assert_eq!(c.take_outbound().len(), 0);
    assert_eq!(c.deferred_after_login.len(), 1);

    let msg = obj(vec![("type", s("logged_in")), ("accessKey", s("AK"))]);
    assert!(matches!(c.handle_message(msg), Ok(Message::LoggedIn)));
    assert_eq!(c.access_key, Some(b"AK".to_vec()));
    assert!(c.logged_in);

    let out = c.take_outbound();
    assert_eq!(out.len(), 1);
    assert_eq!(type_of(&out[0]), b"request".to_vec());
    assert_eq!(str_of(field(&out[0], "mediaKey")), b"key1".to_vec());
    assert_eq!(c.deferred_after_login.len(), 0);

    // once logged in, requests go out at once
    assert!(matches!(
        c.do_request_from_key(b"key2".to_vec()),
        RequestStatus::Sent
    ));
    let out = c.take_outbound();
    assert_eq!(out.len(), 1);
    assert_eq!(str_of(field(&out[0], "mediaKey")), b"key2".to_vec());
}

#[test]
fn login_token_request_is_idempotent() {
    let mut c = Client::new();
    c.request_login_token();
    assert!(c.waiting_for_login_token);
    // while the request is outstanding, asking again issues nothing
    c.request_login_token();
    let out = c.take_outbound();
    assert_eq!(out.len(), 1);
    assert_eq!(type_of(&out[0]), b"request_login_token".to_vec());
}

#[test]
fn malformed_logged_in_changes_nothing() {
    let mut c = Client::new();
    c.do_request_from_key(b"key1".to_vec());
    let r = c.handle_message(obj(vec![("type", s("logged_in"))]));
    match r {
        Err(ClientError::Comet(CometError::MalformedResponse((name, _)))) => {
            assert_eq!(name, "found no accessKey string");
        }
        _ => panic!("expected a malformed-response error"),
    }
    // the login was not recorded and nothing was flushed
    assert!(!c.logged_in);
    assert!(c.access_key.is_none());
    assert_eq!(c.deferred_after_login.len(), 1);
    assert_eq!(c.take_outbound().len(), 0);
}

#[test]
fn missing_results_array_is_malformed() {
    let mut c = Client::new();
    c.update_query(Some(&b"abba"[..]), 10);
    c.take_outbound();
    let bad = obj(vec![
        ("type", s("query_media_results")),
        ("token", Value::Int(1)),
    ]);
    match c.handle_message(bad) {
        Err(ClientError::Comet(CometError::MalformedResponse((name, _)))) => {
            assert_eq!(name, "found no results array");
        }
        _ => panic!("expected a malformed-response error"),
    }
    assert_eq!(c.get_qm_results().0.len(), 0);
    assert!(!c.get_qm_results().1);
}

#[test]
fn login_error_returns_to_token_ready() {
    let mut c = Client::new();
    let tok = obj(vec![("type", s("login_token")), ("login_token", s("T1"))]);
    assert!(matches!(c.handle_message(tok), Ok(Message::LoginToken)));
    c.do_login(b"alice".to_vec(), b"bad".to_vec());
    assert!(c.waiting_for_login);
    let err = obj(vec![("type", s("error_login")), ("message", s("no such user"))]);
    let r = c.handle_message(err);
    assert!(matches!(r, Ok(Message::LoginError(m)) if m == b"no such user".to_vec()));
    assert!(!c.waiting_for_login);
    assert!(!c.logged_in);
}

#[test]
fn unknown_message_is_surfaced() {
    let mut c = Client::new();
    let msg = obj(vec![("type", s("frobnicate"))]);
    let r = c.handle_message(msg);
    assert!(matches!(r, Ok(Message::Unknown(t)) if t == b"frobnicate".to_vec()));
}

#[test]
fn missing_type_is_malformed() {
    let mut c = Client::new();
    let r = c.handle_message(obj(vec![("data", Value::Int(1))]));
    match r {
        Err(ClientError::Comet(CometError::MalformedResponse((name, _)))) => {
            assert_eq!(name, "found no msg type");
        }
        _ => panic!("expected a malformed-response error"),
    }
}

#[test]
fn missing_login_token_is_malformed() {
    let mut c = Client::new();
    let r = c.handle_message(obj(vec![("type", s("login_token"))]));
    match r {
        Err(ClientError::Comet(CometError::MalformedResponse((name, _)))) => {
            assert_eq!(name, "found no login_token string");
        }
        _ => panic!("expected a malformed-response error"),
    }
}

#[test]
fn missing_requests_array_is_malformed() {
    let mut c = Client::new();
    let r = c.handle_message(obj(vec![("type", s("requests"))]));
    match r {
        Err(ClientError::Comet(CometError::MalformedResponse((name, _)))) => {
            assert_eq!(name, "found no requests array");
        }
        _ => panic!("expected a malformed-response error"),
    }
}

#[test]
fn playing_and_requests_feed() {
    let mut c = Client::new();
    let playing = obj(vec![
        ("type", s("playing")),
        ("playing", obj(vec![("byKey", s("bkoks"))])),
    ]);
    assert!(matches!(c.handle_message(playing), Ok(Message::Playing)));
    assert!(c.get_playing().is_some());

    // absent payload means nothing is playing
    let idle = obj(vec![("type", s("playing"))]);
    assert!(matches!(c.handle_message(idle), Ok(Message::Playing)));
    assert!(c.get_playing().is_none());

    let reqs = obj(vec![
        ("type", s("requests")),
        ("requests", Value::Arr(vec![Value::Int(1), Value::Int(2)])),
    ]);
    assert!(matches!(c.handle_message(reqs), Ok(Message::Requests)));
    assert_eq!(c.get_requests().as_ref().map(|v| v.len()), Some(2));
}

#[test]
fn token_monotonicity_discards_stale() {
    let mut c = Client::new();
    c.update_query(Some(&b"abba"[..]), 10);
    let out = c.take_outbound();
    assert_eq!(int_of(field(&out[0], "token")), 1);

    // switching queries abandons the first epoch
    c.update_query(Some(&b"beatles"[..]), 10);
    let out = c.take_outbound();
    assert_eq!(int_of(field(&out[0], "token")), 2);

    // the stale epoch-one response arrives late and must change nothing
    let stale = results_msg(1, vec![Value::Int(99)]);
    assert!(matches!(c.handle_message(stale), Ok(Message::QueryMediaResults)));
    let (results, done) = c.get_qm_results();
    assert_eq!(results.len(), 0);
    assert!(!done);

    // the awaited epoch-two response lands
    let fresh = results_msg(2, vec![Value::Int(7)]);
    assert!(matches!(c.handle_message(fresh), Ok(Message::QueryMediaResults)));
    assert_eq!(c.get_qm_results().0.len(), 1);
}

#[test]
fn newer_token_is_a_protocol_violation() {
    let mut c = Client::new();
    c.update_query(Some(&b"abba"[..]), 10);
    c.take_outbound();
    let bad = results_msg(5, vec![]);
    match c.handle_message(bad) {
        Err(ClientError::ProtocolViolation { awaited, got }) => {
            assert_eq!(awaited, 1);
            assert_eq!(got, 5);
        }
        _ => panic!("expected a protocol violation"),
    }
    // and nothing was mutated
    assert_eq!(c.get_qm_results().0.len(), 0);
}

#[test]
fn pagination_until_exhausted() {
    let mut c = Client::new();
    c.update_query(Some(&b"beatles"[..]), 120);
    let total: u64 = 87;

    let mut served: u64 = 0;
    let mut rounds = Vec::new();
    loop {
        let out = c.take_outbound();
        if out.is_empty() {
            break;
        }
        assert_eq!(out.len(), 1);
        let m = &out[0];
        assert_eq!(type_of(m), b"query_media".to_vec());
        assert_eq!(str_of(field(m, "query")), b"beatles".to_vec());
        let token = int_of(field(m, "token"));
        let skip = int_of(field(m, "skip"));
        let count = int_of(field(m, "count"));
        rounds.push((token, skip, count));
        assert_eq!(skip, served);

        // the server returns exactly the requested count until exhausted
        let n = count.min(total - skip);
        let items: Vec<Value> = (skip..skip + n).map(Value::Int).collect();
        served += n;
        let r = c.handle_message(results_msg(token, items));
        assert!(matches!(r, Ok(Message::QueryMediaResults)));
    }

    // the chunk sequence follows the chunk-size table
    assert_eq!(rounds, vec![(1, 0, 25), (2, 25, 25), (3, 50, 25), (4, 75, 45)]);

    let (results, done) = c.get_qm_results();
    assert!(done);
    assert_eq!(results.len(), 87);
    for (i, v) in results.iter().enumerate() {
        assert!(matches!(v, Value::Int(u) if *u == i as u64));
    }
}

#[test]
fn growing_the_window_keeps_results() {
    let mut c = Client::new();
    c.update_query(Some(&b"abba"[..]), 10);
    let out = c.take_outbound();
    let token = int_of(field(&out[0], "token"));
    let items: Vec<Value> = (0..10).map(Value::Int).collect();
    assert!(matches!(
        c.handle_message(results_msg(token, items)),
        Ok(Message::QueryMediaResults)
    ));
    assert_eq!(c.get_qm_results().0.len(), 10);
    // same query, same count: a no-op
    c.update_query(Some(&b"abba"[..]), 10);
    assert!(c.take_outbound().is_empty());
    // same query, larger count: the window grows, results are kept
    c.update_query(Some(&b"abba"[..]), 20);
    let out = c.take_outbound();
    assert_eq!(out.len(), 1);
    assert_eq!(int_of(field(&out[0], "skip")), 10);
    assert_eq!(c.get_qm_results().0.len(), 10);
}

#[test]
fn follow_builds_the_topic_list() {
    let mut c = Client::new();
    c.follow_all();
    let out = c.take_outbound();
    assert_eq!(out.len(), 1);
    assert_eq!(type_of(&out[0]), b"follow".to_vec());
    match field(&out[0], "which") {
        Value::Arr(topics) => {
            assert_eq!(topics.len(), 2);
            assert_eq!(str_of(&topics[0]), b"playing".to_vec());
            assert_eq!(str_of(&topics[1]), b"requests".to_vec());
        }
        _ => panic!("which should be an array"),
    }
}

#[test]
fn it_works() {
    let mut c = maruska::client::it_works();
    let out = c.take_outbound();
    assert_eq!(out.len(), 2);
    assert_eq!(type_of(&out[0]), b"query_media".to_vec());
    assert_eq!(type_of(&out[1]), b"follow".to_vec());
}
