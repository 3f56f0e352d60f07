//! The comet channel state: one HTTP long-polling session presented as a
//! persistent duplex connection.
//!
//! The state machine here decides everything the transport workers do: which
//! bytes each POST body holds, when an idle long-poll may be issued, and how
//! a response frame updates the session. The HTTP POST itself is I/O and is
//! performed outside; a worker hands the response frame back through
//! [`CometState::finish_exchange`]. At most two exchanges are ever in flight.

use vstd::prelude::*;
use vstd::string::StringSliceAdditionalSpecFns;

verus! {

use crate::json::{Value, esc, ser_elems, ser_elems_rest, write_value, write_escaped,
    write_elems_rest, bytes_of};

/// What can go wrong on the comet channel.
pub enum CometError {
    /// The outbound message source was closed.
    Recv,
    /// Network or HTTP failure, described by the transport that hit it.
    Transport(String),
    /// A frame that does not have the expected shape: the missing part's
    /// name, and the raw payload for diagnosis.
    MalformedResponse((&'static str, Value)),
}

/// A short fixed description of a comet error, for status lines.
pub open spec fn comet_error_text(e: CometError) -> Seq<char> {
    match e {
        CometError::Recv => "cannot read on channel"@,
        CometError::Transport(_) => "transport error"@,
        CometError::MalformedResponse(_) => "malformed response"@,
    }
}

impl CometError {
    /// A short description of the error kind.
    pub fn description(&self) -> (r: &'static str)
        ensures
            r@ == comet_error_text(*self),
    {
        match self {
            CometError::Recv => "cannot read on channel",
            CometError::Transport(_) => "transport error",
            CometError::MalformedResponse(_) => "malformed response",
        }
    }
}

/// How many exchanges may be in flight at once.
pub const MAX_IN_FLIGHT: u8 = 2;

/// What a transport worker is told to do next.
pub enum WorkerPlan {
    /// POST this body now: it carries queued outbound messages.
    Dispatch(Vec<u8>),
    /// POST this empty-batch body as a long poll.
    LongPoll(Vec<u8>),
    /// Nothing to do: wait until an outbound message is queued.
    Hold,
}

/// The bytes of an outbound frame: `[sessionId?, message, ...]`, the session
/// id present as its first element once one is established.
pub open spec fn packet_body(session: Option<Seq<u8>>, batch: Seq<Value>) -> Seq<u8> {
    match session {
        None => seq![91u8] + ser_elems(batch) + seq![93u8],
        Some(s) => seq![91u8, 34u8] + esc(s) + seq![34u8] + ser_elems_rest(batch) + seq![93u8],
    }
}

/// The comet channel's state. The transport workers own no state of their
/// own: they take plans from here and feed responses back.
pub struct CometState {
    /// The server-issued session id; absent until the first response.
    pub session_id: Option<Vec<u8>>,
    /// Messages waiting to go out, oldest first.
    pub outbound: Vec<Value>,
    /// How many HTTP exchanges are in flight right now.
    pub in_flight: u8,
}

impl CometState {
    /// The channel never has more than two exchanges in flight.
    pub open spec fn wf(self) -> bool {
        self.in_flight <= MAX_IN_FLIGHT
    }

    /// The session id as a byte string, when present.
    pub open spec fn session_view(self) -> Option<Seq<u8>> {
        match self.session_id {
            Some(s) => Some(s@),
            None => None,
        }
    }

    /// A fresh channel: no session, nothing queued, nothing in flight.
    pub fn new() -> (c: CometState)
        ensures
            c.wf(),
            c.session_id is None,
            c.outbound@ == Seq::<Value>::empty(),
            c.in_flight == 0,
    {
        CometState { session_id: None, outbound: Vec::new(), in_flight: 0 }
    }

    /// Queues one outbound message.
    pub fn enqueue(&mut self, m: Value)
        ensures
            final(self).outbound@ == old(self).outbound@.push(m),
            final(self).session_id == old(self).session_id,
            final(self).in_flight == old(self).in_flight,
    {
        self.outbound.push(m);
    }

    /// Queues a batch of outbound messages, keeping their order.
    pub fn enqueue_all(&mut self, mut batch: Vec<Value>)
        ensures
            final(self).outbound@ == old(self).outbound@ + batch@,
            final(self).session_id == old(self).session_id,
            final(self).in_flight == old(self).in_flight,
    {
        self.outbound.append(&mut batch);
    }

    /// The body of a frame carrying `batch`, prefixed by the session id once
    /// one is established.
    fn build_packet(&self, batch: &Vec<Value>) -> (r: Vec<u8>)
        ensures
            r@ == packet_body(self.session_view(), batch@),
    {
        let mut out: Vec<u8> = Vec::new();
        out.push(91);
        match &self.session_id {
            Some(s) => {
                out.push(34);
                write_escaped(s.as_slice(), &mut out);
                out.push(34);
                if batch.len() > 0 {
                    out.push(44);
                    write_value(&batch[0], &mut out);
                    write_elems_rest(batch, 1, &mut out);
                    proof {
                        assert(batch@.skip(0) =~= batch@);
                        assert(batch@.skip(0)[0] == batch@[0]);
                        assert(batch@.skip(0).skip(1) =~= batch@.skip(1));
                    }
                } else {
                    assert(ser_elems_rest(batch@) =~= Seq::<u8>::empty());
                }
            },
            None => {
                if batch.len() > 0 {
                    write_value(&batch[0], &mut out);
                    write_elems_rest(batch, 1, &mut out);
                    proof {
                        assert(batch@.skip(0) =~= batch@);
                    }
                }
            },
        }
        out.push(93);
        assert(out@ =~= packet_body(self.session_view(), batch@));
        out
    }

    /// The first exchange: an empty frame, sent before any session exists.
    /// Begins the exchange, so exactly one request is then in flight.
    pub fn begin_connect(&mut self) -> (r: Vec<u8>)
        requires
            old(self).session_id is None,
            old(self).in_flight == 0,
        ensures
            final(self).wf(),
            final(self).in_flight == 1,
            final(self).session_id is None,
            final(self).outbound@ == old(self).outbound@,
            r@ == packet_body(None, Seq::<Value>::empty()),
    {
        let batch: Vec<Value> = Vec::new();
        let body = self.build_packet(&batch);
        self.in_flight = 1;
        body
    }

    /// Drains the queue and begins an exchange carrying it, if any message is
    /// queued; the queue is emptied and the batch order kept.
    pub fn try_begin_send(&mut self) -> (r: Option<Vec<u8>>)
        requires
            old(self).wf(),
            old(self).in_flight < MAX_IN_FLIGHT,
        ensures
            final(self).wf(),
            final(self).session_id == old(self).session_id,
            match r {
                Some(body) => {
                    &&& old(self).outbound@.len() > 0
                    &&& body@ == packet_body(old(self).session_view(), old(self).outbound@)
                    &&& final(self).outbound@ == Seq::<Value>::empty()
                    &&& final(self).in_flight == old(self).in_flight + 1
                },
                None => {
                    &&& old(self).outbound@.len() == 0
                    &&& *final(self) == *old(self)
                },
            },
    {
        if self.outbound.len() == 0 {
            return None;
        }
        let mut batch: Vec<Value> = Vec::new();
        core::mem::swap(&mut self.outbound, &mut batch);
        let body = self.build_packet(&batch);
        self.in_flight = self.in_flight + 1;
        Some(body)
    }

    /// Begins an idle long poll, but only when nothing at all is in flight:
    /// that keeps a single continuously renewed poll listening for pushes.
    pub fn try_begin_poll(&mut self) -> (r: Option<Vec<u8>>)
        requires
            old(self).wf(),
        ensures
            final(self).wf(),
            final(self).session_id == old(self).session_id,
            final(self).outbound@ == old(self).outbound@,
            match r {
                Some(body) => {
                    &&& old(self).in_flight == 0
                    &&& body@ == packet_body(old(self).session_view(), Seq::<Value>::empty())
                    &&& final(self).in_flight == 1
                },
                None => {
                    &&& old(self).in_flight != 0
                    &&& *final(self) == *old(self)
                },
            },
    {
        if self.in_flight == 0 {
            let batch: Vec<Value> = Vec::new();
            let body = self.build_packet(&batch);
            self.in_flight = 1;
            Some(body)
        } else {
            None
        }
    }

    /// What an idle worker should do next, as one atomic decision: first
    /// deliver queued outbound traffic, else keep one long poll alive, else
    /// wait for something to send.
    pub fn worker_step(&mut self) -> (r: WorkerPlan)
        requires
            old(self).wf(),
            old(self).in_flight < MAX_IN_FLIGHT,
        ensures
            final(self).wf(),
            final(self).session_id == old(self).session_id,
            match r {
                WorkerPlan::Dispatch(body) => {
                    &&& old(self).outbound@.len() > 0
                    &&& body@ == packet_body(old(self).session_view(), old(self).outbound@)
                    &&& final(self).outbound@ == Seq::<Value>::empty()
                    &&& final(self).in_flight == old(self).in_flight + 1
                },
                WorkerPlan::LongPoll(body) => {
                    &&& old(self).outbound@.len() == 0
                    &&& old(self).in_flight == 0
                    &&& body@ == packet_body(old(self).session_view(), Seq::<Value>::empty())
                    &&& final(self).in_flight == 1
                },
                WorkerPlan::Hold => {
                    &&& old(self).outbound@.len() == 0
                    &&& old(self).in_flight != 0
                    &&& *final(self) == *old(self)
                },
            },
    {
        match self.try_begin_send() {
            Some(body) => WorkerPlan::Dispatch(body),
            None => match self.try_begin_poll() {
                Some(body) => WorkerPlan::LongPoll(body),
                None => WorkerPlan::Hold,
            },
        }
    }

    /// Ends an exchange that failed in transport, with no frame to hand
    /// back: the in-flight slot is released and nothing else changes, so a
    /// surviving worker can still poll and send.
    pub fn abort_exchange(&mut self)
        requires
            old(self).wf(),
            old(self).in_flight >= 1,
        ensures
            final(self).wf(),
            final(self).in_flight == old(self).in_flight - 1,
            final(self).session_id == old(self).session_id,
            final(self).outbound@ == old(self).outbound@,
    {
        self.in_flight = self.in_flight - 1;
    }

    /// Ends an exchange with the response frame the server sent back.
    ///
    /// The frame must be `[sessionId, [message, ...]]`. The session id is
    /// saved first, so a frame whose second element is missing still rotates
    /// the session; the messages are handed back in array order. A session
    /// id, once stored, is never unset, only replaced.
    pub fn finish_exchange(&mut self, frame: Value) -> (r: Result<Vec<Value>, CometError>)
        requires
            old(self).in_flight >= 1,
            old(self).wf(),
        ensures
            final(self).wf(),
            final(self).in_flight == old(self).in_flight - 1,
            final(self).outbound@ == old(self).outbound@,
            old(self).session_id is Some ==> final(self).session_id is Some,
            match r {
                Ok(msgs) => {
                    &&& frame is Arr
                    &&& frame->Arr_0@.len() >= 2
                    &&& frame->Arr_0@[0] is Str
                    &&& final(self).session_view() == Some(frame->Arr_0@[0]->Str_0@)
                    &&& frame->Arr_0@[1] is Arr
                    &&& msgs@ == frame->Arr_0@[1]->Arr_0@
                },
                Err(e) => match e {
                    CometError::MalformedResponse((name, payload)) => {
                        &&& payload == frame
                        &&& {
                            ||| {
                                &&& name@ == "found no session id"@
                                &&& final(self).session_id == old(self).session_id
                                &&& !(frame is Arr && frame->Arr_0@.len() >= 1
                                    && frame->Arr_0@[0] is Str)
                            }
                            ||| {
                                &&& name@ == "found no msg content"@
                                &&& frame is Arr && frame->Arr_0@.len() >= 1
                                    && frame->Arr_0@[0] is Str
                                &&& final(self).session_view() == Some(frame->Arr_0@[0]->Str_0@)
                                &&& !(frame->Arr_0@.len() >= 2 && frame->Arr_0@[1] is Arr)
                            }
                        }
                    },
                    _ => false,
                },
            },
    {
        self.in_flight = self.in_flight - 1;
        // Save the session id (it may rotate on every response).
        let ok_session = match &frame {
            Value::Arr(elems) => {
                if elems.len() >= 1 {
                    match &elems[0] {
                        Value::Str(s) => {
                            self.session_id = Some(bytes_of(s.as_slice()));
                            true
                        },
                        _ => false,
                    }
                } else {
                    false
                }
            },
            _ => false,
        };
        if !ok_session {
            return Err(CometError::MalformedResponse(("found no session id", frame)));
        }
        // Hand the frame's messages on, in array order.
        let ok_content = match &frame {
            Value::Arr(elems) => elems.len() >= 2 && matches!(&elems[1], Value::Arr(_)),
            _ => false,
        };
        if !ok_content {
            return Err(CometError::MalformedResponse(("found no msg content", frame)));
        }
        match frame {
            Value::Arr(mut elems) => {
                let second = elems.remove(1);
                match second {
                    Value::Arr(msgs) => Ok(msgs),
                    _ => {
                        assert(false);
                        Ok(Vec::new())
                    },
                }
            },
            _ => {
                assert(false);
                Ok(Vec::new())
            },
        }
    }
}

} // verus!
