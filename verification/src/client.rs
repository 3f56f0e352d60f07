//! The protocol client: turns the inbound message stream into application
//! state and queues outbound protocol actions.
//!
//! Two little state machines live here. Login walks from no-token through
//! token-requested and token-ready to logged-in, deferring the credentials
//! until the server has issued a one-time login token, and deferring
//! authenticated actions until login succeeds. Paginated search fetches one
//! chunk at a time, stamping every request with a strictly increasing token
//! so that stale responses from an abandoned query can be recognised and
//! dropped without touching the accumulated results.

use vstd::prelude::*;
use vstd::string::StringSliceAdditionalSpecFns;

verus! {

use crate::comet::CometError;
use crate::hash::{md5, md5_hex};
use crate::media::Media;
use crate::json::{Value, obj_field, bytes_eq, bytes_of, lit_bytes, get_field, find_key,
    str_field, int_field, arr_field};

/// An inbound message, after dispatch on its `type` field.
#[derive(Debug, PartialEq, Eq)]
pub enum Message {
    Welcome,
    Playing,
    Requests,
    LoginToken,
    LoggedIn,
    LoginError(Vec<u8>),
    QueryMediaResults,
    Unknown(Vec<u8>),
}

/// Whether a requested action went out at once or waits on login.
#[derive(Debug, PartialEq, Eq)]
pub enum RequestStatus {
    Sent,
    Deferred,
}

/// What can go wrong while handling an inbound message.
pub enum ClientError {
    /// A transport-level failure, carried up from the comet channel.
    Comet(CometError),
    /// A search response carried a token newer than the one awaited, which
    /// the server's contract rules out.
    ProtocolViolation { awaited: u64, got: u64 },
}

/// A short fixed description of a client error, for status lines.
pub open spec fn client_error_text(e: ClientError) -> Seq<char> {
    match e {
        ClientError::Comet(ce) => crate::comet::comet_error_text(ce),
        ClientError::ProtocolViolation { .. } => "protocol violation"@,
    }
}

impl ClientError {
    /// A short description of the error kind.
    pub fn description(&self) -> (r: &'static str)
        ensures
            r@ == client_error_text(*self),
    {
        match self {
            ClientError::Comet(ce) => ce.description(),
            ClientError::ProtocolViolation { .. } => "protocol violation",
        }
    }
}

/// `e` is a malformed-response error naming `name` and carrying `payload`.
pub open spec fn is_malformed(e: ClientError, name: Seq<char>, payload: Value) -> bool {
    &&& e matches ClientError::Comet(ce)
    &&& ce matches CometError::MalformedResponse(p)
    &&& p.0@ == name
    &&& p.1 == payload
}

/// The message type: the string field `type`.
pub open spec fn msg_type(m: Value) -> Option<Seq<u8>> {
    str_field(m, "type".spec_bytes())
}

// ------------------------------------------------------------------
// The exact shape of each outbound message.
// ------------------------------------------------------------------

/// `{type: "follow", which: [...]}` with the given topics.
pub open spec fn is_follow_msg(m: Value, which: Seq<Seq<u8>>) -> bool {
    &&& m matches Value::Obj(pairs)
    &&& pairs@.len() == 2
    &&& pairs@[0].0@ == "type".spec_bytes()
    &&& pairs@[0].1 matches Value::Str(t) && t@ == "follow".spec_bytes()
    &&& pairs@[1].0@ == "which".spec_bytes()
    &&& pairs@[1].1 matches Value::Arr(elems) && elems@.len() == which.len() && (forall|i: int|
        0 <= i < which.len() ==> (#[trigger] elems@[i]) is Str && elems@[i]->Str_0@ == which[i])
}

/// `{type: "request_login_token"}`.
pub open spec fn is_request_login_token_msg(m: Value) -> bool {
    &&& m matches Value::Obj(pairs)
    &&& pairs@.len() == 1
    &&& pairs@[0].0@ == "type".spec_bytes()
    &&& pairs@[0].1 matches Value::Str(t) && t@ == "request_login_token".spec_bytes()
}

/// `{type: "login"|"login_accessKey", username, hash}`.
pub open spec fn is_login_msg(m: Value, username: Seq<u8>, hash: Seq<u8>, access: bool) -> bool {
    &&& m matches Value::Obj(pairs)
    &&& pairs@.len() == 3
    &&& pairs@[0].0@ == "type".spec_bytes()
    &&& pairs@[0].1 matches Value::Str(t) && t@ == (if access {
        "login_accessKey".spec_bytes()
    } else {
        "login".spec_bytes()
    })
    &&& pairs@[1].0@ == "username".spec_bytes()
    &&& pairs@[1].1 matches Value::Str(u) && u@ == username
    &&& pairs@[2].0@ == "hash".spec_bytes()
    &&& pairs@[2].1 matches Value::Str(h) && h@ == hash
}

/// `{type: "query_media", query, token, skip, count}`.
pub open spec fn is_query_media_msg(
    m: Value,
    query: Seq<u8>,
    token: nat,
    skip: nat,
    count: nat,
) -> bool {
    &&& m matches Value::Obj(pairs)
    &&& pairs@.len() == 5
    &&& pairs@[0].0@ == "type".spec_bytes()
    &&& pairs@[0].1 matches Value::Str(t) && t@ == "query_media".spec_bytes()
    &&& pairs@[1].0@ == "query".spec_bytes()
    &&& pairs@[1].1 matches Value::Str(q) && q@ == query
    &&& pairs@[2].0@ == "token".spec_bytes()
    &&& pairs@[2].1 matches Value::Int(tk) && tk as nat == token
    &&& pairs@[3].0@ == "skip".spec_bytes()
    &&& pairs@[3].1 matches Value::Int(sk) && sk as nat == skip
    &&& pairs@[4].0@ == "count".spec_bytes()
    &&& pairs@[4].1 matches Value::Int(ct) && ct as nat == count
}

/// `{type: "request", mediaKey}`.
pub open spec fn is_request_msg(m: Value, key: Seq<u8>) -> bool {
    &&& m matches Value::Obj(pairs)
    &&& pairs@.len() == 2
    &&& pairs@[0].0@ == "type".spec_bytes()
    &&& pairs@[0].1 matches Value::Str(t) && t@ == "request".spec_bytes()
    &&& pairs@[1].0@ == "mediaKey".spec_bytes()
    &&& pairs@[1].1 matches Value::Str(k) && k@ == key
}

/// The hash sent at login: an access key is salted directly with the token,
/// a password is hashed once before the salted pass.
pub open spec fn login_hash(secret: Seq<u8>, token: Seq<u8>, access: bool) -> Seq<u8> {
    if access {
        md5_hex(secret + token)
    } else {
        md5_hex(md5_hex(secret) + token)
    }
}

// ------------------------------------------------------------------
// The paginated-search state and its transitions.
// ------------------------------------------------------------------

/// The smaller of two naturals.
pub open spec fn min_nat(a: nat, b: nat) -> nat {
    if a <= b {
        a
    } else {
        b
    }
}

/// The chunk size for the next request when `n` results are accumulated:
/// small chunks at first to bound per-request latency, growing as the
/// result set does.
pub open spec fn chunk_size(n: nat) -> nat {
    if n <= 50 {
        25
    } else if n <= 100 {
        50
    } else if n <= 200 {
        100
    } else if n <= 500 {
        (1000 - n) as nat
    } else {
        1000
    }
}

/// The search pipeline's state, abstracted from the client record.
#[verifier::ext_equal]
pub ghost struct QmState {
    /// The current query, if one is set.
    pub query: Option<Seq<u8>>,
    /// The token stamped on the most recent request.
    pub token: nat,
    /// The results accumulated so far, in server order.
    pub results: Seq<Value>,
    /// How many results the caller wants in all.
    pub desired: nat,
    /// How many results the outstanding request asked for.
    pub requested: Option<nat>,
    /// Whether the server has run out of results for this query.
    pub done: bool,
    /// The token of the outstanding request, while one is outstanding.
    pub awaiting: Option<nat>,
}

/// How many results the next request asks for.
pub open spec fn next_count(q: QmState) -> nat {
    min_nat((q.desired - q.results.len()) as nat, chunk_size(q.results.len()))
}

/// Whether a fetch should be issued: there is an unfinished query, no
/// request outstanding, demand not yet covered, and the last request did not
/// already ask for everything wanted.
pub open spec fn wants_fetch(q: QmState) -> bool {
    &&& !q.done
    &&& q.query is Some
    &&& !(q.requested matches Some(c) && c >= q.desired)
    &&& q.results.len() < q.desired
    &&& q.awaiting is None
}

/// Issuing the next chunk request, when one is wanted: the token advances
/// and becomes awaited, and the chunk size is recorded.
pub open spec fn qm_fetch(q: QmState) -> QmState {
    if wants_fetch(q) {
        QmState {
            token: (q.token + 1) as nat,
            requested: Some(next_count(q)),
            awaiting: Some((q.token + 1) as nat),
            ..q
        }
    } else {
        q
    }
}

/// Changing the query window: a larger count for the same query only grows
/// the window; the same query and count is a no-op; a different query resets
/// the pipeline to a fresh epoch.
pub open spec fn qm_update(q: QmState, new_query: Option<Seq<u8>>, count: nat) -> QmState {
    if q.query == new_query && count > q.desired {
        qm_fetch(QmState { desired: count, ..q })
    } else if q.query == new_query {
        q
    } else {
        qm_fetch(
            QmState {
                query: new_query,
                token: q.token,
                results: Seq::empty(),
                desired: count,
                requested: None,
                done: false,
                awaiting: None,
            },
        )
    }
}

/// Handling a results message: a response to the awaited token appends its
/// results and either finishes the query (short response), fetches on
/// (saturated response) or rests; any other response changes nothing.
pub open spec fn qm_on_results(q: QmState, token: nat, results: Seq<Value>) -> QmState {
    if q.awaiting == Some(token) && q.requested is Some {
        let q2 = QmState { awaiting: None, results: q.results + results, ..q };
        if results.len() < q.requested->0 {
            QmState { done: true, ..q2 }
        } else if results.len() == q.requested->0 {
            qm_fetch(q2)
        } else {
            q2
        }
    } else {
        q
    }
}

// ------------------------------------------------------------------
// The client record.
// ------------------------------------------------------------------

/// The protocol client's state. Outbound messages are queued in
/// `pending_out`; the transport layer drains them with [`Client::take_outbound`].
pub struct Client {
    /// What is currently playing, as the server last reported it.
    pub playing: Option<Value>,
    /// The current request queue, as the server last reported it.
    pub requests: Option<Vec<Value>>,
    /// The access key for the login session, once the server granted one.
    pub access_key: Option<Vec<u8>>,
    /// The login token acquired from the server, if any.
    pub login_token: Option<Vec<u8>>,
    /// Whether the server has confirmed the login.
    pub logged_in: bool,
    /// Whether a login token has been requested and not yet received.
    pub waiting_for_login_token: bool,
    /// Whether a login message has been sent and not yet answered.
    pub waiting_for_login: bool,
    /// Credentials held back until a login token arrives.
    pub deferred_login: Option<(Vec<u8>, Vec<u8>, bool)>,
    /// The current search results, in server order.
    pub qm_results: Vec<Value>,
    /// The current search query, if one is set.
    pub qm_query: Option<Vec<u8>>,
    /// How many results the outstanding search request asked for.
    pub qm_requested_count: Option<usize>,
    /// The token stamped on the most recent search request.
    pub qm_token: u64,
    /// How many results the caller wants for this query.
    pub qm_results_count: usize,
    /// Whether the server has run out of results for this query.
    pub qm_done: bool,
    /// The token of the outstanding search request, while one is out.
    pub qm_waiting_for_token: Option<u64>,
    /// Messages held back until login succeeds, oldest first.
    pub deferred_after_login: Vec<Value>,
    /// Messages ready for the transport, oldest first.
    pub pending_out: Vec<Value>,
}

impl Client {
    /// The search pipeline's state, abstracted.
    pub open spec fn qm_state(self) -> QmState {
        QmState {
            query: match self.qm_query {
                Some(q) => Some(q@),
                None => None,
            },
            token: self.qm_token as nat,
            results: self.qm_results@,
            desired: self.qm_results_count as nat,
            requested: match self.qm_requested_count {
                Some(c) => Some(c as nat),
                None => None,
            },
            done: self.qm_done,
            awaiting: match self.qm_waiting_for_token {
                Some(t) => Some(t as nat),
                None => None,
            },
        }
    }

    /// While a search request is outstanding, it is the latest one, its
    /// chunk size is recorded, a query is set, and the query is unfinished.
    pub open spec fn wf(self) -> bool {
        self.qm_waiting_for_token matches Some(t) ==> {
            &&& t == self.qm_token
            &&& self.qm_requested_count is Some
            &&& self.qm_query is Some
            &&& !self.qm_done
        }
    }
}

/// The live-feed fields are untouched.
pub open spec fn same_feed(a: Client, b: Client) -> bool {
    &&& b.playing == a.playing
    &&& b.requests == a.requests
}

/// The login-flow fields are untouched.
pub open spec fn same_login(a: Client, b: Client) -> bool {
    &&& b.access_key == a.access_key
    &&& b.login_token == a.login_token
    &&& b.logged_in == a.logged_in
    &&& b.waiting_for_login_token == a.waiting_for_login_token
    &&& b.waiting_for_login == a.waiting_for_login
    &&& b.deferred_login == a.deferred_login
}

/// The search pipeline is untouched.
pub open spec fn same_qm(a: Client, b: Client) -> bool {
    b.qm_state() == a.qm_state()
}

/// The after-login queue is untouched.
pub open spec fn same_deferred(a: Client, b: Client) -> bool {
    b.deferred_after_login@ == a.deferred_after_login@
}

/// The outbound queue is untouched.
pub open spec fn same_pending(a: Client, b: Client) -> bool {
    b.pending_out@ == a.pending_out@
}

/// Nothing observable changed at all.
pub open spec fn unchanged(a: Client, b: Client) -> bool {
    &&& same_feed(a, b)
    &&& same_login(a, b)
    &&& same_qm(a, b)
    &&& same_deferred(a, b)
    &&& same_pending(a, b)
}

/// Exactly one outbound message was queued, after all earlier ones.
pub open spec fn pushed_pending(a: Client, b: Client) -> bool {
    &&& b.pending_out@.len() == a.pending_out@.len() + 1
    &&& b.pending_out@.take(a.pending_out@.len() as int) == a.pending_out@
}

/// The outbound effect of a fetch decision taken in state `q`: one
/// query-media message for the next chunk, or nothing when no fetch is due.
pub open spec fn fetch_pending(a: Client, b: Client, q: QmState) -> bool {
    if wants_fetch(q) {
        &&& pushed_pending(a, b)
        &&& is_query_media_msg(
            b.pending_out@.last(),
            q.query->0,
            (q.token + 1) as nat,
            q.results.len(),
            next_count(q),
        )
    } else {
        same_pending(a, b)
    }
}

impl Client {
    /// A fresh client: nothing known, nothing pending, search idle.
    pub fn new() -> (c: Client)
        ensures
            c.wf(),
            c.playing is None,
            c.requests is None,
            c.access_key is None,
            c.login_token is None,
            !c.logged_in,
            !c.waiting_for_login_token,
            !c.waiting_for_login,
            c.deferred_login is None,
            c.qm_results@ == Seq::<Value>::empty(),
            c.qm_query is None,
            c.qm_requested_count is None,
            c.qm_token == 0,
            c.qm_results_count == 0,
            c.qm_done,
            c.qm_waiting_for_token is None,
            c.deferred_after_login@ == Seq::<Value>::empty(),
            c.pending_out@ == Seq::<Value>::empty(),
    {
        Client {
            playing: None,
            requests: None,
            access_key: None,
            login_token: None,
            logged_in: false,
            waiting_for_login_token: false,
            waiting_for_login: false,
            deferred_login: None,
            qm_results: Vec::new(),
            qm_query: None,
            qm_requested_count: None,
            qm_token: 0,
            qm_results_count: 0,
            qm_done: true,
            qm_waiting_for_token: None,
            deferred_after_login: Vec::new(),
            pending_out: Vec::new(),
        }
    }

    /// What is currently playing, as last reported.
    pub fn get_playing(&self) -> (r: &Option<Value>)
        ensures
            *r == self.playing,
    {
        &self.playing
    }

    /// The current request queue, as last reported.
    pub fn get_requests(&self) -> (r: &Option<Vec<Value>>)
        ensures
            *r == self.requests,
    {
        &self.requests
    }

    /// The accumulated search results and whether the query is exhausted.
    pub fn get_qm_results(&self) -> (r: (&Vec<Value>, &bool))
        ensures
            r.0@ == self.qm_results@,
            *r.1 == self.qm_done,
    {
        (&self.qm_results, &self.qm_done)
    }

    /// Hands the queued outbound messages to the transport, oldest first,
    /// leaving the queue empty.
    pub fn take_outbound(&mut self) -> (r: Vec<Value>)
        ensures
            r@ == old(self).pending_out@,
            final(self).pending_out@ == Seq::<Value>::empty(),
            same_feed(*old(self), *final(self)),
            same_login(*old(self), *final(self)),
            same_qm(*old(self), *final(self)),
            same_deferred(*old(self), *final(self)),
            final(self).wf() == old(self).wf(),
    {
        let mut out: Vec<Value> = Vec::new();
        core::mem::swap(&mut self.pending_out, &mut out);
        out
    }

    /// Queues one outbound message.
    fn send_message(&mut self, m: Value)
        ensures
            pushed_pending(*old(self), *final(self)),
            final(self).pending_out@.last() == m,
            same_feed(*old(self), *final(self)),
            same_login(*old(self), *final(self)),
            same_qm(*old(self), *final(self)),
            same_deferred(*old(self), *final(self)),
            final(self).wf() == old(self).wf(),
    {
        self.pending_out.push(m);
        proof {
            assert(self.pending_out@.take(old(self).pending_out@.len() as int) =~= old(
                self,
            ).pending_out@);
        }
    }

    /// Sends `m` now when logged in, else holds it until login succeeds and
    /// says so.
    fn send_message_after_login(&mut self, m: Value) -> (r: RequestStatus)
        ensures
            same_feed(*old(self), *final(self)),
            same_login(*old(self), *final(self)),
            same_qm(*old(self), *final(self)),
            final(self).wf() == old(self).wf(),
            old(self).logged_in ==> {
                &&& r is Sent
                &&& pushed_pending(*old(self), *final(self))
                &&& final(self).pending_out@.last() == m
                &&& same_deferred(*old(self), *final(self))
            },
            !old(self).logged_in ==> {
                &&& r is Deferred
                &&& same_pending(*old(self), *final(self))
                &&& final(self).deferred_after_login@ == old(self).deferred_after_login@.push(m)
            },
    {
        if self.logged_in {
            self.send_message(m);
            RequestStatus::Sent
        } else {
            self.deferred_after_login.push(m);
            RequestStatus::Deferred
        }
    }

    /// Asks the server to push updates for `which` topics, each of which must
    /// be `playing` or `requests`; asking for anything else is a caller bug.
    pub fn follow(&mut self, which: Vec<Vec<u8>>)
        requires
            forall|i: int|
                0 <= i < which@.len() ==> which@[i]@ == "playing".spec_bytes() || which@[i]@
                    == "requests".spec_bytes(),
        ensures
            pushed_pending(*old(self), *final(self)),
            is_follow_msg(
                final(self).pending_out@.last(),
                which@.map_values(|v: Vec<u8>| v@),
            ),
            same_feed(*old(self), *final(self)),
            same_login(*old(self), *final(self)),
            same_qm(*old(self), *final(self)),
            same_deferred(*old(self), *final(self)),
            final(self).wf() == old(self).wf(),
    {
        let ghost orig = which@;
        let mut which = which;
        let mut elems: Vec<Value> = Vec::new();
        while which.len() > 0
            invariant
                elems@.len() + which@.len() == orig.len(),
                forall|j: int|
                    0 <= j < elems@.len() ==> (#[trigger] elems@[j]) is Str
                        && elems@[j]->Str_0@ == orig[j]@,
                forall|k: int| 0 <= k < which@.len() ==> which@[k] == orig[elems@.len() + k],
            decreases which@.len(),
        {
            let w = which.remove(0);
            elems.push(Value::Str(w));
        }
        let mut pairs: Vec<(Vec<u8>, Value)> = Vec::new();
        pairs.push((lit_bytes("type"), Value::Str(lit_bytes("follow"))));
        pairs.push((lit_bytes("which"), Value::Arr(elems)));
        let m = Value::Obj(pairs);
        proof {
            assert(is_follow_msg(m, orig.map_values(|v: Vec<u8>| v@)));
        }
        self.send_message(m);
    }

    /// Asks the server to push updates for both topics.
    pub fn follow_all(&mut self)
        ensures
            pushed_pending(*old(self), *final(self)),
            is_follow_msg(
                final(self).pending_out@.last(),
                seq!["playing".spec_bytes(), "requests".spec_bytes()],
            ),
            same_feed(*old(self), *final(self)),
            same_login(*old(self), *final(self)),
            same_qm(*old(self), *final(self)),
            same_deferred(*old(self), *final(self)),
            final(self).wf() == old(self).wf(),
    {
        let mut which: Vec<Vec<u8>> = Vec::new();
        which.push(lit_bytes("playing"));
        which.push(lit_bytes("requests"));
        let ghost w = which@;
        proof {
            assert(w.map_values(|v: Vec<u8>| v@) =~= seq![
                "playing".spec_bytes(),
                "requests".spec_bytes(),
            ]);
        }
        self.follow(which);
    }

    /// Asks the server for a one-time login token and records the wait.
    /// Idempotent while a token request is already outstanding: no second
    /// request is ever issued.
    pub fn request_login_token(&mut self)
        ensures
            final(self).waiting_for_login_token,
            final(self).access_key == old(self).access_key,
            final(self).login_token == old(self).login_token,
            final(self).logged_in == old(self).logged_in,
            final(self).waiting_for_login == old(self).waiting_for_login,
            final(self).deferred_login == old(self).deferred_login,
            same_feed(*old(self), *final(self)),
            same_qm(*old(self), *final(self)),
            same_deferred(*old(self), *final(self)),
            final(self).wf() == old(self).wf(),
            old(self).waiting_for_login_token ==> same_pending(*old(self), *final(self)),
            !old(self).waiting_for_login_token ==> pushed_pending(*old(self), *final(self))
                && is_request_login_token_msg(final(self).pending_out@.last()),
    {
        if self.waiting_for_login_token {
            return ;
        }
        let mut pairs: Vec<(Vec<u8>, Value)> = Vec::new();
        pairs.push((lit_bytes("type"), Value::Str(lit_bytes("request_login_token"))));
        self.waiting_for_login_token = true;
        self.send_message(Value::Obj(pairs));
    }
}

impl Client {
    /// Logs in with the given credentials. With a token in hand the salted
    /// hash goes out at once; without one the credentials are parked as the
    /// pending login and a token is requested, unless one is already on its
    /// way.
    pub fn do_login_inner(&mut self, username: Vec<u8>, secret: Vec<u8>, using_access_key: bool)
        requires
            old(self).wf(),
        ensures
            final(self).wf(),
            same_feed(*old(self), *final(self)),
            same_qm(*old(self), *final(self)),
            same_deferred(*old(self), *final(self)),
            final(self).access_key == old(self).access_key,
            final(self).login_token == old(self).login_token,
            final(self).logged_in == old(self).logged_in,
            old(self).login_token matches Some(tok) ==> {
                &&& final(self).deferred_login is None
                &&& final(self).waiting_for_login
                &&& final(self).waiting_for_login_token == old(self).waiting_for_login_token
                &&& pushed_pending(*old(self), *final(self))
                &&& is_login_msg(
                    final(self).pending_out@.last(),
                    username@,
                    login_hash(secret@, tok@, using_access_key),
                    using_access_key,
                )
            },
            old(self).login_token is None ==> {
                &&& final(self).deferred_login == Some((username, secret, using_access_key))
                &&& final(self).waiting_for_login == old(self).waiting_for_login
                &&& final(self).waiting_for_login_token
                &&& if old(self).waiting_for_login_token {
                    same_pending(*old(self), *final(self))
                } else {
                    pushed_pending(*old(self), *final(self)) && is_request_login_token_msg(
                        final(self).pending_out@.last(),
                    )
                }
            },
    {
        if self.login_token.is_some() {
            let tok = match &self.login_token {
                Some(t) => bytes_of(t.as_slice()),
                None => {
                    assert(false);
                    Vec::new()
                },
            };
            self.deferred_login = None;
            let hash_hex = if using_access_key {
                let mut buf = secret;
                let mut salt = tok;
                buf.append(&mut salt);
                md5(buf.as_slice())
            } else {
                let mut buf = md5(secret.as_slice());
                let mut salt = tok;
                buf.append(&mut salt);
                md5(buf.as_slice())
            };
            let mut pairs: Vec<(Vec<u8>, Value)> = Vec::new();
            let tname = if using_access_key {
                lit_bytes("login_accessKey")
            } else {
                lit_bytes("login")
            };
            pairs.push((lit_bytes("type"), Value::Str(tname)));
            pairs.push((lit_bytes("username"), Value::Str(username)));
            pairs.push((lit_bytes("hash"), Value::Str(hash_hex)));
            self.waiting_for_login = true;
            self.send_message(Value::Obj(pairs));
        } else {
            self.deferred_login = Some((username, secret, using_access_key));
            if !self.waiting_for_login_token {
                self.request_login_token();
            }
        }
    }

    /// Logs in with a password.
    pub fn do_login(&mut self, username: Vec<u8>, password: Vec<u8>)
        requires
            old(self).wf(),
        ensures
            final(self).wf(),
            same_feed(*old(self), *final(self)),
            same_qm(*old(self), *final(self)),
            same_deferred(*old(self), *final(self)),
            final(self).access_key == old(self).access_key,
            final(self).login_token == old(self).login_token,
            final(self).logged_in == old(self).logged_in,
            old(self).login_token matches Some(tok) ==> {
                &&& final(self).deferred_login is None
                &&& final(self).waiting_for_login
                &&& pushed_pending(*old(self), *final(self))
                &&& is_login_msg(
                    final(self).pending_out@.last(),
                    username@,
                    login_hash(password@, tok@, false),
                    false,
                )
            },
            old(self).login_token is None ==> {
                &&& final(self).deferred_login == Some((username, password, false))
                &&& final(self).waiting_for_login_token
                &&& if old(self).waiting_for_login_token {
                    same_pending(*old(self), *final(self))
                } else {
                    pushed_pending(*old(self), *final(self)) && is_request_login_token_msg(
                        final(self).pending_out@.last(),
                    )
                }
            },
    {
        self.do_login_inner(username, password, false)
    }

    /// Logs in with a stored access key.
    pub fn do_login_accesskey(&mut self, username: Vec<u8>, access_key: Vec<u8>)
        requires
            old(self).wf(),
        ensures
            final(self).wf(),
            same_feed(*old(self), *final(self)),
            same_qm(*old(self), *final(self)),
            same_deferred(*old(self), *final(self)),
            final(self).access_key == old(self).access_key,
            final(self).login_token == old(self).login_token,
            final(self).logged_in == old(self).logged_in,
            old(self).login_token matches Some(tok) ==> {
                &&& final(self).deferred_login is None
                &&& final(self).waiting_for_login
                &&& pushed_pending(*old(self), *final(self))
                &&& is_login_msg(
                    final(self).pending_out@.last(),
                    username@,
                    login_hash(access_key@, tok@, true),
                    true,
                )
            },
            old(self).login_token is None ==> {
                &&& final(self).deferred_login == Some((username, access_key, true))
                &&& final(self).waiting_for_login_token
                &&& if old(self).waiting_for_login_token {
                    same_pending(*old(self), *final(self))
                } else {
                    pushed_pending(*old(self), *final(self)) && is_request_login_token_msg(
                        final(self).pending_out@.last(),
                    )
                }
            },
    {
        self.do_login_inner(username, access_key, true)
    }

    /// Requests playback of `media`: sent at once when logged in, else held
    /// until login succeeds.
    pub fn do_request(&mut self, media: &Media) -> (r: RequestStatus)
        ensures
            same_feed(*old(self), *final(self)),
            same_login(*old(self), *final(self)),
            same_qm(*old(self), *final(self)),
            final(self).wf() == old(self).wf(),
            old(self).logged_in ==> {
                &&& r is Sent
                &&& pushed_pending(*old(self), *final(self))
                &&& is_request_msg(final(self).pending_out@.last(), media.key@)
                &&& same_deferred(*old(self), *final(self))
            },
            !old(self).logged_in ==> {
                &&& r is Deferred
                &&& same_pending(*old(self), *final(self))
                &&& final(self).deferred_after_login@.len() == old(
                    self,
                ).deferred_after_login@.len() + 1
                &&& final(self).deferred_after_login@.take(
                    old(self).deferred_after_login@.len() as int,
                ) == old(self).deferred_after_login@
                &&& is_request_msg(final(self).deferred_after_login@.last(), media.key@)
            },
    {
        self.do_request_from_key(bytes_of(media.key.as_slice()))
    }

    /// Requests playback of the media with the given key: sent at once when
    /// logged in, else held until login succeeds.
    pub fn do_request_from_key(&mut self, key: Vec<u8>) -> (r: RequestStatus)
        ensures
            same_feed(*old(self), *final(self)),
            same_login(*old(self), *final(self)),
            same_qm(*old(self), *final(self)),
            final(self).wf() == old(self).wf(),
            old(self).logged_in ==> {
                &&& r is Sent
                &&& pushed_pending(*old(self), *final(self))
                &&& is_request_msg(final(self).pending_out@.last(), key@)
                &&& same_deferred(*old(self), *final(self))
            },
            !old(self).logged_in ==> {
                &&& r is Deferred
                &&& same_pending(*old(self), *final(self))
                &&& final(self).deferred_after_login@.len() == old(
                    self,
                ).deferred_after_login@.len() + 1
                &&& final(self).deferred_after_login@.take(
                    old(self).deferred_after_login@.len() as int,
                ) == old(self).deferred_after_login@
                &&& is_request_msg(final(self).deferred_after_login@.last(), key@)
            },
    {
        let mut pairs: Vec<(Vec<u8>, Value)> = Vec::new();
        pairs.push((lit_bytes("type"), Value::Str(lit_bytes("request"))));
        pairs.push((lit_bytes("mediaKey"), Value::Str(key)));
        let r = self.send_message_after_login(Value::Obj(pairs));
        proof {
            if !old(self).logged_in {
                assert(self.deferred_after_login@.take(
                    old(self).deferred_after_login@.len() as int,
                ) =~= old(self).deferred_after_login@);
            }
        }
        r
    }

    /// The chunk size for the next search request, from the number of
    /// results already accumulated.
    pub fn qm_chunk_size(&self) -> (r: usize)
        ensures
            r as nat == chunk_size(self.qm_results@.len() as nat),
            r <= 1000,
    {
        let n = self.qm_results.len();
        if n <= 50 {
            25
        } else if n <= 100 {
            50
        } else if n <= 200 {
            100
        } else if n <= 500 {
            1000 - n
        } else {
            1000
        }
    }

    /// Issues the next chunk request: stamps a fresh token, records it as
    /// awaited together with the chunk size, and queues the request.
    fn query_media(&mut self)
        requires
            old(self).wf(),
            old(self).qm_token < u64::MAX,
            wants_fetch(old(self).qm_state()),
        ensures
            final(self).wf(),
            same_feed(*old(self), *final(self)),
            same_login(*old(self), *final(self)),
            same_deferred(*old(self), *final(self)),
            final(self).qm_state() == qm_fetch(old(self).qm_state()),
            fetch_pending(*old(self), *final(self), old(self).qm_state()),
            final(self).qm_token == old(self).qm_token + 1,
    {
        let skip = self.qm_results.len();
        self.qm_token = self.qm_token + 1;
        let chunk = self.qm_chunk_size();
        let remaining = self.qm_results_count - skip;
        let cnt = if remaining < chunk {
            remaining
        } else {
            chunk
        };
        self.qm_requested_count = Some(cnt);
        let query = match &self.qm_query {
            Some(q) => bytes_of(q.as_slice()),
            None => {
                assert(false);
                Vec::new()
            },
        };
        let mut pairs: Vec<(Vec<u8>, Value)> = Vec::new();
        pairs.push((lit_bytes("type"), Value::Str(lit_bytes("query_media"))));
        pairs.push((lit_bytes("query"), Value::Str(query)));
        pairs.push((lit_bytes("token"), Value::Int(self.qm_token)));
        pairs.push((lit_bytes("skip"), Value::Int(skip as u64)));
        pairs.push((lit_bytes("count"), Value::Int(cnt as u64)));
        self.qm_waiting_for_token = Some(self.qm_token);
        self.send_message(Value::Obj(pairs));
        proof {
            assert(self.qm_state() =~= qm_fetch(old(self).qm_state()));
        }
    }

    /// Issues the next chunk request exactly when one is wanted: not done,
    /// a query set, demand uncovered, and no request outstanding.
    pub fn maybe_query_media(&mut self)
        requires
            old(self).wf(),
            old(self).qm_token < u64::MAX,
        ensures
            final(self).wf(),
            same_feed(*old(self), *final(self)),
            same_login(*old(self), *final(self)),
            same_deferred(*old(self), *final(self)),
            final(self).qm_state() == qm_fetch(old(self).qm_state()),
            fetch_pending(*old(self), *final(self), old(self).qm_state()),
    {
        if self.qm_done {
            return ;
        }
        if self.qm_query.is_none() {
            return ;
        }
        match self.qm_requested_count {
            Some(c) => {
                if c >= self.qm_results_count {
                    return ;
                }
            },
            None => {},
        }
        if self.qm_results.len() >= self.qm_results_count {
            return ;
        }
        if self.qm_waiting_for_token.is_some() {
            return ;
        }
        self.query_media();
    }

    /// Moves the query window. A larger count for the same query grows the
    /// window and fetches if needed; the same query and count is a no-op; a
    /// different query (or none) resets the pipeline to a fresh epoch.
    pub fn update_query(&mut self, new_query: Option<&[u8]>, count: usize)
        requires
            old(self).wf(),
            old(self).qm_token < u64::MAX,
        ensures
            final(self).wf(),
            same_feed(*old(self), *final(self)),
            same_login(*old(self), *final(self)),
            same_deferred(*old(self), *final(self)),
            ({
                let q0 = old(self).qm_state();
                let nq = match new_query {
                    Some(s) => Some(s@),
                    None => None,
                };
                &&& final(self).qm_state() == qm_update(q0, nq, count as nat)
                &&& if q0.query == nq && count as nat > q0.desired {
                    fetch_pending(*old(self), *final(self), QmState { desired: count as nat, ..q0 })
                } else if q0.query == nq {
                    same_pending(*old(self), *final(self))
                } else {
                    fetch_pending(
                        *old(self),
                        *final(self),
                        (QmState {
                            query: nq,
                            token: q0.token,
                            results: Seq::empty(),
                            desired: count as nat,
                            requested: None,
                            done: false,
                            awaiting: None,
                        }),
                    )
                }
            }),
    {
        let same = match (new_query, &self.qm_query) {
            (None, None) => true,
            (Some(a), Some(b)) => bytes_eq(a, b.as_slice()),
            _ => false,
        };
        if same && count > self.qm_results_count {
            self.qm_results_count = count;
            self.maybe_query_media();
            proof {
                assert(self.qm_state() =~= qm_update(
                    old(self).qm_state(),
                    match new_query {
                        Some(s) => Some(s@),
                        None => None,
                    },
                    count as nat,
                ));
            }
        } else if same {
        } else {
            self.qm_done = false;
            self.qm_query = match new_query {
                Some(s) => Some(bytes_of(s)),
                None => None,
            };
            self.qm_requested_count = None;
            self.qm_results_count = count;
            self.qm_results.clear();
            self.qm_waiting_for_token = None;
            self.maybe_query_media();
            proof {
                assert(self.qm_state() =~= qm_update(
                    old(self).qm_state(),
                    match new_query {
                        Some(s) => Some(s@),
                        None => None,
                    },
                    count as nat,
                ));
            }
        }
    }
}

// ------------------------------------------------------------------
// What handling each inbound message kind does.
// ------------------------------------------------------------------

/// A `playing` message stores the payload as reported, or clears it when
/// the field is absent (nothing is playing).
pub open spec fn playing_step(
    pre: Client,
    msg: Value,
    post: Client,
    r: Result<Message, ClientError>,
) -> bool {
    &&& post.playing == obj_field(msg, "playing".spec_bytes())
    &&& post.requests == pre.requests
    &&& same_login(pre, post)
    &&& same_qm(pre, post)
    &&& same_deferred(pre, post)
    &&& same_pending(pre, post)
    &&& r matches Ok(m) && m is Playing
}

/// A `requests` message replaces the request queue with the reported array;
/// a missing or non-array field is malformed.
pub open spec fn requests_step(
    pre: Client,
    msg: Value,
    post: Client,
    r: Result<Message, ClientError>,
) -> bool {
    match arr_field(msg, "requests".spec_bytes()) {
        Some(items) => {
            &&& post.requests matches Some(rs) && rs@ == items
            &&& post.playing == pre.playing
            &&& same_login(pre, post)
            &&& same_qm(pre, post)
            &&& same_deferred(pre, post)
            &&& same_pending(pre, post)
            &&& r matches Ok(m) && m is Requests
        },
        None => {
            &&& unchanged(pre, post)
            &&& (r matches Err(e) && is_malformed(e, "found no requests array"@, msg))
        },
    }
}

/// A `login_token` message stores the token and ends the wait for one; if a
/// login was deferred on the token, it goes out at once, salted with it.
pub open spec fn login_token_step(
    pre: Client,
    msg: Value,
    post: Client,
    r: Result<Message, ClientError>,
) -> bool {
    match str_field(msg, "login_token".spec_bytes()) {
        Some(tok) => {
            &&& post.login_token matches Some(t) && t@ == tok
            &&& !post.waiting_for_login_token
            &&& post.logged_in == pre.logged_in
            &&& post.access_key == pre.access_key
            &&& post.deferred_login is None
            &&& same_feed(pre, post)
            &&& same_qm(pre, post)
            &&& same_deferred(pre, post)
            &&& match pre.deferred_login {
                Some(cred) => {
                    &&& post.waiting_for_login
                    &&& pushed_pending(pre, post)
                    &&& is_login_msg(
                        post.pending_out@.last(),
                        cred.0@,
                        login_hash(cred.1@, tok, cred.2),
                        cred.2,
                    )
                },
                None => {
                    &&& post.waiting_for_login == pre.waiting_for_login
                    &&& same_pending(pre, post)
                },
            }
            &&& r matches Ok(m) && m is LoginToken
        },
        None => {
            &&& unchanged(pre, post)
            &&& (r matches Err(e) && is_malformed(e, "found no login_token string"@, msg))
        },
    }
}

/// A `logged_in` message records the login and its access key, then flushes
/// the messages deferred on login, oldest first, and empties that queue. A
/// message without its access key is malformed and changes nothing: the
/// login is recorded only once the whole message is read.
pub open spec fn logged_in_step(
    pre: Client,
    msg: Value,
    post: Client,
    r: Result<Message, ClientError>,
) -> bool {
    match str_field(msg, "accessKey".spec_bytes()) {
        Some(key) => {
            &&& !post.waiting_for_login
            &&& post.logged_in
            &&& post.login_token == pre.login_token
            &&& post.waiting_for_login_token == pre.waiting_for_login_token
            &&& post.deferred_login == pre.deferred_login
            &&& same_feed(pre, post)
            &&& same_qm(pre, post)
            &&& post.access_key matches Some(k) && k@ == key
            &&& post.pending_out@ == pre.pending_out@ + pre.deferred_after_login@
            &&& post.deferred_after_login@ == Seq::<Value>::empty()
            &&& r matches Ok(m) && m is LoggedIn
        },
        None => {
            &&& unchanged(pre, post)
            &&& (r matches Err(e) && is_malformed(e, "found no accessKey string"@, msg))
        },
    }
}

/// An `error_login` message surfaces the server's reason and returns the
/// login flow to token-ready, so the caller may retry with new credentials.
pub open spec fn login_error_step(
    pre: Client,
    msg: Value,
    post: Client,
    r: Result<Message, ClientError>,
) -> bool {
    match str_field(msg, "message".spec_bytes()) {
        Some(text) => {
            &&& !post.waiting_for_login
            &&& post.logged_in == pre.logged_in
            &&& post.login_token == pre.login_token
            &&& post.waiting_for_login_token == pre.waiting_for_login_token
            &&& post.deferred_login == pre.deferred_login
            &&& post.access_key == pre.access_key
            &&& same_feed(pre, post)
            &&& same_qm(pre, post)
            &&& same_deferred(pre, post)
            &&& same_pending(pre, post)
            &&& r matches Ok(m) && m matches Message::LoginError(reason) && reason@ == text
        },
        None => {
            &&& unchanged(pre, post)
            &&& (r matches Err(e) && is_malformed(e, "found no message string"@, msg))
        },
    }
}

/// A `query_media_results` message: a response to the awaited token appends
/// its results and continues or finishes the pagination; an older response
/// is dropped without touching anything; a newer one is a protocol
/// violation and also touches nothing.
pub open spec fn qm_results_step(
    pre: Client,
    msg: Value,
    post: Client,
    r: Result<Message, ClientError>,
) -> bool {
    &&& same_feed(pre, post)
    &&& same_login(pre, post)
    &&& same_deferred(pre, post)
    &&& match int_field(msg, "token".spec_bytes()) {
        None => {
            &&& same_qm(pre, post)
            &&& same_pending(pre, post)
            &&& (r matches Err(e) && is_malformed(e, "found no token string"@, msg))
        },
        Some(tok) => match pre.qm_waiting_for_token {
            None => {
                &&& same_qm(pre, post)
                &&& same_pending(pre, post)
                &&& r matches Ok(m) && m is QueryMediaResults
            },
            Some(aw) => {
                if tok < aw {
                    &&& same_qm(pre, post)
                    &&& same_pending(pre, post)
                    &&& r matches Ok(m) && m is QueryMediaResults
                } else if tok > aw {
                    &&& same_qm(pre, post)
                    &&& same_pending(pre, post)
                    &&& (r matches Err(e) && e matches ClientError::ProtocolViolation {
                        awaited,
                        got,
                    } && awaited == aw && got == tok)
                } else {
                    match arr_field(msg, "results".spec_bytes()) {
                        None => {
                            &&& post.qm_state() == (QmState {
                                awaiting: None,
                                ..pre.qm_state()
                            })
                            &&& same_pending(pre, post)
                            &&& (r matches Err(e) && is_malformed(
                                e,
                                "found no results array"@,
                                msg,
                            ))
                        },
                        Some(results) => {
                            &&& post.qm_state() == qm_on_results(pre.qm_state(), tok as nat, results)
                            &&& ({
                                let q2 = QmState {
                                    awaiting: None,
                                    results: pre.qm_state().results + results,
                                    ..pre.qm_state()
                                };
                                if results.len() == pre.qm_state().requested->0 {
                                    fetch_pending(pre, post, q2)
                                } else {
                                    same_pending(pre, post)
                                }
                            })
                            &&& r matches Ok(m) && m is QueryMediaResults
                        },
                    }
                }
            },
        },
    }
}

impl Client {
    /// Handles a `playing` message.
    pub fn handle_playing(&mut self, msg: Value) -> (r: Result<Message, ClientError>)
        ensures
            final(self).wf() == old(self).wf(),
            playing_step(*old(self), msg, *final(self), r),
    {
        match msg {
            Value::Obj(mut pairs) => {
                match find_key(&pairs, "playing") {
                    Some(i) => {
                        let pr = pairs.remove(i);
                        self.playing = Some(pr.1);
                    },
                    None => {
                        self.playing = None;
                    },
                }
            },
            _ => {
                self.playing = None;
            },
        }
        Ok(Message::Playing)
    }

    /// Handles a `requests` message.
    pub fn handle_requests(&mut self, msg: Value) -> (r: Result<Message, ClientError>)
        ensures
            final(self).wf() == old(self).wf(),
            requests_step(*old(self), msg, *final(self), r),
    {
        let ok_shape = match get_field(&msg, "requests") {
            Some(v) => matches!(v, Value::Arr(_)),
            None => false,
        };
        if !ok_shape {
            return Err(
                ClientError::Comet(CometError::MalformedResponse(("found no requests array", msg))),
            );
        }
        match msg {
            Value::Obj(mut pairs) => {
                let i = match find_key(&pairs, "requests") {
                    Some(i) => i,
                    None => {
                        assert(false);
                        0
                    },
                };
                let pr = pairs.remove(i);
                match pr.1 {
                    Value::Arr(items) => {
                        self.requests = Some(items);
                        Ok(Message::Requests)
                    },
                    _ => {
                        assert(false);
                        Err(ClientError::Comet(CometError::Recv))
                    },
                }
            },
            _ => {
                assert(false);
                Err(ClientError::Comet(CometError::Recv))
            },
        }
    }

    /// Handles a `login_token` message.
    pub fn handle_login_token(&mut self, msg: Value) -> (r: Result<Message, ClientError>)
        requires
            old(self).wf(),
        ensures
            final(self).wf(),
            login_token_step(*old(self), msg, *final(self), r),
    {
        let tok: Vec<u8> = match get_field(&msg, "login_token") {
            Some(v) => match v {
                Value::Str(s) => bytes_of(s.as_slice()),
                _ => {
                    return Err(
                        ClientError::Comet(
                            CometError::MalformedResponse(("found no login_token string", msg)),
                        ),
                    );
                },
            },
            None => {
                return Err(
                    ClientError::Comet(
                        CometError::MalformedResponse(("found no login_token string", msg)),
                    ),
                );
            },
        };
        self.login_token = Some(tok);
        self.waiting_for_login_token = false;
        match self.deferred_login.take() {
            Some(cred) => {
                self.do_login_inner(cred.0, cred.1, cred.2);
            },
            None => {},
        }
        Ok(Message::LoginToken)
    }

    /// Handles a `logged_in` message.
    pub fn handle_logged_in(&mut self, msg: Value) -> (r: Result<Message, ClientError>)
        ensures
            final(self).wf() == old(self).wf(),
            logged_in_step(*old(self), msg, *final(self), r),
    {
        let key: Vec<u8> = match get_field(&msg, "accessKey") {
            Some(v) => match v {
                Value::Str(s) => bytes_of(s.as_slice()),
                _ => {
                    return Err(
                        ClientError::Comet(
                            CometError::MalformedResponse(("found no accessKey string", msg)),
                        ),
                    );
                },
            },
            None => {
                return Err(
                    ClientError::Comet(
                        CometError::MalformedResponse(("found no accessKey string", msg)),
                    ),
                );
            },
        };
        self.waiting_for_login = false;
        self.logged_in = true;
        self.access_key = Some(key);
        let mut flushed: Vec<Value> = Vec::new();
        core::mem::swap(&mut self.deferred_after_login, &mut flushed);
        self.pending_out.append(&mut flushed);
        Ok(Message::LoggedIn)
    }

    /// Handles an `error_login` message.
    pub fn handle_login_error(&mut self, msg: Value) -> (r: Result<Message, ClientError>)
        ensures
            final(self).wf() == old(self).wf(),
            login_error_step(*old(self), msg, *final(self), r),
    {
        let text: Vec<u8> = match get_field(&msg, "message") {
            Some(v) => match v {
                Value::Str(s) => bytes_of(s.as_slice()),
                _ => {
                    return Err(
                        ClientError::Comet(
                            CometError::MalformedResponse(("found no message string", msg)),
                        ),
                    );
                },
            },
            None => {
                return Err(
                    ClientError::Comet(
                        CometError::MalformedResponse(("found no message string", msg)),
                    ),
                );
            },
        };
        self.waiting_for_login = false;
        Ok(Message::LoginError(text))
    }

    /// Handles a `query_media_results` message.
    pub fn handle_query_media_results(&mut self, msg: Value) -> (r: Result<Message, ClientError>)
        requires
            old(self).wf(),
            old(self).qm_token < u64::MAX,
        ensures
            final(self).wf(),
            qm_results_step(*old(self), msg, *final(self), r),
    {
        let tok_opt: Option<u64> = match get_field(&msg, "token") {
            Some(v) => match v {
                Value::Int(u) => Some(*u),
                _ => None,
            },
            None => None,
        };
        let tok: u64 = match tok_opt {
            Some(t) => t,
            None => {
                return Err(
                    ClientError::Comet(
                        CometError::MalformedResponse(("found no token string", msg)),
                    ),
                );
            },
        };
        let aw: u64 = match self.qm_waiting_for_token {
            Some(a) => a,
            None => {
                return Ok(Message::QueryMediaResults);
            },
        };
        if tok < aw {
            return Ok(Message::QueryMediaResults);
        }
        if tok > aw {
            return Err(ClientError::ProtocolViolation { awaited: aw, got: tok });
        }
        self.qm_waiting_for_token = None;
        let ok_shape = match get_field(&msg, "results") {
            Some(v) => matches!(v, Value::Arr(_)),
            None => false,
        };
        if !ok_shape {
            return Err(
                ClientError::Comet(
                    CometError::MalformedResponse(("found no results array", msg)),
                ),
            );
        }
        let mut results: Vec<Value> = match msg {
            Value::Obj(mut pairs) => {
                let i = match find_key(&pairs, "results") {
                    Some(i) => i,
                    None => {
                        assert(false);
                        0
                    },
                };
                let pr = pairs.remove(i);
                match pr.1 {
                    Value::Arr(items) => items,
                    _ => {
                        assert(false);
                        Vec::new()
                    },
                }
            },
            _ => {
                assert(false);
                Vec::new()
            },
        };
        let ghost results_view = results@;
        let returned = results.len();
        let requested = match self.qm_requested_count {
            Some(c) => c,
            None => {
                assert(false);
                0
            },
        };
        self.qm_results.append(&mut results);
        if returned < requested {
            self.qm_done = true;
            proof {
                assert(self.qm_state() =~= qm_on_results(
                    old(self).qm_state(),
                    tok as nat,
                    results_view,
                ));
            }
        } else if returned == requested {
            self.maybe_query_media();
            proof {
                assert(self.qm_state() =~= qm_on_results(
                    old(self).qm_state(),
                    tok as nat,
                    results_view,
                ));
            }
        } else {
            proof {
                assert(self.qm_state() =~= qm_on_results(
                    old(self).qm_state(),
                    tok as nat,
                    results_view,
                ));
            }
        }
        Ok(Message::QueryMediaResults)
    }

    /// Dispatches one inbound message on its `type` field and applies it to
    /// the client state. An unknown type is surfaced, not fatal, so a caller
    /// can log it and go on.
    pub fn handle_message(&mut self, msg: Value) -> (r: Result<Message, ClientError>)
        requires
            old(self).wf(),
            old(self).qm_token < u64::MAX,
        ensures
            final(self).wf(),
            ({
                let pre = *old(self);
                let post = *final(self);
                match msg_type(msg) {
                    None => unchanged(pre, post) && (r matches Err(e) && is_malformed(
                        e,
                        "found no msg type"@,
                        msg,
                    )),
                    Some(t) => if t == "welcome".spec_bytes() {
                        unchanged(pre, post) && (r matches Ok(m) && m is Welcome)
                    } else if t == "playing".spec_bytes() {
                        playing_step(pre, msg, post, r)
                    } else if t == "requests".spec_bytes() {
                        requests_step(pre, msg, post, r)
                    } else if t == "login_token".spec_bytes() {
                        login_token_step(pre, msg, post, r)
                    } else if t == "logged_in".spec_bytes() {
                        logged_in_step(pre, msg, post, r)
                    } else if t == "error_login".spec_bytes() {
                        login_error_step(pre, msg, post, r)
                    } else if t == "query_media_results".spec_bytes() {
                        qm_results_step(pre, msg, post, r)
                    } else {
                        unchanged(pre, post) && (r matches Ok(m) && m matches Message::Unknown(u)
                            && u@ == t)
                    },
                }
            }),
    {
        let type_bytes: Vec<u8> = match get_field(&msg, "type") {
            Some(v) => match v {
                Value::Str(s) => bytes_of(s.as_slice()),
                _ => {
                    return Err(
                        ClientError::Comet(
                            CometError::MalformedResponse(("found no msg type", msg)),
                        ),
                    );
                },
            },
            None => {
                return Err(
                    ClientError::Comet(CometError::MalformedResponse(("found no msg type", msg))),
                );
            },
        };
        let t = type_bytes.as_slice();
        if bytes_eq(t, "welcome".as_bytes()) {
            Ok(Message::Welcome)
        } else if bytes_eq(t, "playing".as_bytes()) {
            self.handle_playing(msg)
        } else if bytes_eq(t, "requests".as_bytes()) {
            self.handle_requests(msg)
        } else if bytes_eq(t, "login_token".as_bytes()) {
            self.handle_login_token(msg)
        } else if bytes_eq(t, "logged_in".as_bytes()) {
            self.handle_logged_in(msg)
        } else if bytes_eq(t, "error_login".as_bytes()) {
            self.handle_login_error(msg)
        } else if bytes_eq(t, "query_media_results".as_bytes()) {
            self.handle_query_media_results(msg)
        } else {
            Ok(Message::Unknown(type_bytes))
        }
    }
}

// ------------------------------------------------------------------
// Laws of the search pipeline.
// ------------------------------------------------------------------

/// Token monotonicity: a results message whose token is not the awaited one
/// never mutates the search state — in particular every response older than
/// the awaited token is dropped without effect.
pub proof fn lemma_token_monotonicity(q: QmState, token: nat, results: Seq<Value>)
    requires
        q.awaiting != Some(token),
    ensures
        qm_on_results(q, token, results) == q,
{
}

/// The server side of one paginated query: a fixed result list, where a
/// request for `count` results from position `skip` is answered with
/// exactly the next `count` of them, or with what is left when the list
/// runs out first.
pub open spec fn server_reply(server: Seq<Value>, skip: nat, count: nat) -> Seq<Value> {
    if skip >= server.len() {
        Seq::empty()
    } else {
        server.subrange(skip as int, min_nat(skip + count, server.len()) as int)
    }
}

/// The client is mid-pagination against `server` and agrees with it: the
/// accumulated results are exactly the server's first ones, one chunk
/// request is outstanding, stamped with the latest token, and demand is not
/// yet covered.
pub open spec fn fetching_sync(q: QmState, server: Seq<Value>) -> bool {
    &&& q.awaiting == Some(q.token)
    &&& q.requested == Some(next_count(q))
    &&& !q.done
    &&& q.query is Some
    &&& q.results.len() < q.desired
    &&& q.results.len() <= server.len()
    &&& q.results == server.take(q.results.len() as int)
}

/// A fetch issued from a state that agrees with the server leaves the
/// pipeline mid-pagination and still in agreement.
pub proof fn lemma_fetch_establishes_sync(q: QmState, server: Seq<Value>)
    requires
        wants_fetch(q),
        q.results.len() <= server.len(),
        q.results == server.take(q.results.len() as int),
    ensures
        fetching_sync(qm_fetch(q), server),
{
}

/// Pagination progress: while the client agrees with the server, the
/// awaited response appends exactly the next results, in server order and
/// without duplicates (the accumulation stays a prefix of the server's
/// list). Afterwards either another chunk is outstanding, agreement holds
/// and the accumulation strictly grew, or the pipeline has come to rest
/// holding exactly `min(desired, available)` results.
pub proof fn lemma_pagination_step(q: QmState, server: Seq<Value>)
    requires
        fetching_sync(q, server),
    ensures
        ({
            let reply = server_reply(server, q.results.len(), q.requested->0);
            let q2 = qm_on_results(q, q.token, reply);
            &&& q2.desired == q.desired
            &&& q2.results.len() <= server.len()
            &&& q2.results == server.take(q2.results.len() as int)
            &&& q2.awaiting is Some ==> fetching_sync(q2, server) && q2.results.len()
                > q.results.len()
            &&& q2.awaiting is None ==> q2.results.len() == min_nat(q.desired, server.len())
        }),
{
    let len = q.results.len();
    let cnt = q.requested->0;
    let reply = server_reply(server, len, cnt);
    let q2 = qm_on_results(q, q.token, reply);
    assert(cnt >= 1);
    if len >= server.len() {
        assert(len == server.len());
        assert(reply.len() == 0);
        assert(q.results + reply =~= q.results);
    } else {
        assert(reply.len() == min_nat(len + cnt, server.len()) - len);
        assert((q.results + reply) =~= server.take((len + reply.len()) as int));
    }
}

/// Pagination completeness: repeatedly answering the outstanding chunk
/// request from the server's fixed result list, until no request is left
/// outstanding, accumulates exactly `min(desired, available)` results —
/// the server's own prefix, in order and without duplicates.
pub open spec fn qm_run(q: QmState, server: Seq<Value>) -> QmState
    decreases q.desired - q.results.len(),
    when fetching_sync(q, server)
    via qm_run_decreases
{
    let reply = server_reply(server, q.results.len(), q.requested->0);
    let q2 = qm_on_results(q, q.token, reply);
    if q2.awaiting is Some {
        qm_run(q2, server)
    } else {
        q2
    }
}

#[via_fn]
proof fn qm_run_decreases(q: QmState, server: Seq<Value>) {
    lemma_pagination_step(q, server);
}

/// Starting a fresh query with any demand at all puts the pipeline
/// mid-pagination and in agreement with any server, so the completeness
/// law below applies to it from the first request on.
pub proof fn lemma_new_query_starts_sync(
    q0: QmState,
    nq: Seq<u8>,
    count: nat,
    server: Seq<Value>,
)
    requires
        q0.query != Some(nq),
        count > 0,
    ensures
        fetching_sync(qm_update(q0, Some(nq), count), server),
{
    let reset = QmState {
        query: Some(nq),
        token: q0.token,
        results: Seq::empty(),
        desired: count,
        requested: None,
        done: false,
        awaiting: None,
    };
    assert(reset.results =~= server.take(0));
    lemma_fetch_establishes_sync(reset, server);
}

/// The law itself: a pagination in agreement with the server ends at rest,
/// holding exactly the first `min(desired, available)` of the server's
/// results, in server order and without duplicates.
pub proof fn lemma_pagination_completeness(q: QmState, server: Seq<Value>)
    requires
        fetching_sync(q, server),
    ensures
        ({
            let qf = qm_run(q, server);
            &&& qf.awaiting is None
            &&& qf.results.len() == min_nat(q.desired, server.len())
            &&& qf.results == server.take(min_nat(q.desired, server.len()) as int)
        }),
    decreases q.desired - q.results.len(),
{
    lemma_pagination_step(q, server);
    let reply = server_reply(server, q.results.len(), q.requested->0);
    let q2 = qm_on_results(q, q.token, reply);
    if q2.awaiting is Some {
        lemma_pagination_completeness(q2, server);
    }
}

/// A little self-exercise of the client state machine: a fresh client asks
/// for a broad query and follows both live topics, leaving well-formed
/// state with both requests queued.
pub fn it_works() -> (c: Client)
    ensures
        c.wf(),
        c.pending_out@.len() == 2,
        is_query_media_msg(c.pending_out@[0], Seq::empty(), 1, 0, 25),
        is_follow_msg(
            c.pending_out@[1],
            seq!["playing".spec_bytes(), "requests".spec_bytes()],
        ),
{
    let mut c = Client::new();
    let empty_query: Vec<u8> = Vec::new();
    c.update_query(Some(empty_query.as_slice()), 500);
    proof {
        assert(empty_query@ =~= Seq::<u8>::empty());
        assert(c.pending_out@.len() == 1);
        assert(c.pending_out@.last() == c.pending_out@[0]);
        assert(is_query_media_msg(c.pending_out@[0], Seq::<u8>::empty(), 1, 0, 25));
    }
    c.follow_all();
    proof {
        assert(c.pending_out@.take(1)[0] == c.pending_out@[0]);
    }
    c
}

} // verus!
