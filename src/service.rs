//! Handling of requests, and the decisions of the connection workers and of
//! the accept loop. The sockets, the threads and the sleeping belong to the
//! caller, which hands in what happened and carries out the action returned.
use crate::message::{
    add_request_wire, client_wire, decode_client, lemma_add_request_wire_injective,
    lemma_len_field_injective, encode_server, server_wire, AddResponse, ClientMessage,
    DecodeError, ServerMessage,
};
use vstd::prelude::*;

verus! {

/// Most bytes a worker reads for one request.
pub const READ_BUFFER_SIZE: usize = 512;

/// Milliseconds a loop sleeps when nothing is pending.
pub const POLL_INTERVAL_MS: u64 = 100;

/// The sum of two `int32`s, wrapped into the `int32` range.
pub open spec fn wrapping_sum(a: i32, b: i32) -> i32 {
    let s = a + b;
    if s > i32::MAX {
        (s - 0x1_0000_0000) as i32
    } else if s < i32::MIN {
        (s + 0x1_0000_0000) as i32
    } else {
        s as i32
    }
}

/// The response to a request: an echo comes back unchanged; an addition gets
/// its wrapped sum.
pub open spec fn reply_to(m: ClientMessage) -> ServerMessage {
    match m {
        ClientMessage::EchoMessage(e) => ServerMessage::EchoMessage(e),
        ClientMessage::AddRequest(q) => ServerMessage::AddResponse(
            AddResponse { result: wrapping_sum(q.a, q.b) },
        ),
    }
}

/// The response, in wire form, to the request whose wire form is `d`.
pub open spec fn response_wire(d: Seq<u8>) -> Seq<u8> {
    server_wire(reply_to(choose|m: ClientMessage| client_wire(m) == d))
}

/// Requests with the same wire form get responses with the same wire form.
pub proof fn lemma_reply_determined(m1: ClientMessage, m2: ClientMessage)
    requires
        client_wire(m1) == client_wire(m2),
    ensures
        server_wire(reply_to(m1)) == server_wire(reply_to(m2)),
{
    let w = client_wire(m1);
    match (m1, m2) {
        (ClientMessage::EchoMessage(_), ClientMessage::EchoMessage(_)) => {},
        (ClientMessage::AddRequest(q1), ClientMessage::AddRequest(q2)) => {
            lemma_len_field_injective(
                crate::message::KEY_FIELD2_LEN,
                add_request_wire(q1),
                add_request_wire(q2),
            );
            lemma_add_request_wire_injective(q1, q2);
        },
        (ClientMessage::EchoMessage(_), ClientMessage::AddRequest(_)) => {
            assert(w[0] != client_wire(m2)[0]);
        },
        (ClientMessage::AddRequest(_), ClientMessage::EchoMessage(_)) => {
            assert(w[0] != client_wire(m2)[0]);
        },
    }
}

/// The response to any request with wire form `d` has wire form
/// `response_wire(d)`.
pub proof fn lemma_response_wire(m: ClientMessage)
    ensures
        server_wire(reply_to(m)) == response_wire(client_wire(m)),
{
    let c = choose|x: ClientMessage| client_wire(x) == client_wire(m);
    lemma_reply_determined(m, c);
}

/// A read gets a response, rather than ending its connection, when it holds
/// the wire form of a request.
pub open spec fn answered(d: Seq<u8>) -> bool {
    d.len() > 0 && exists|m: ClientMessage| client_wire(m) == d
}

/// The responses one connection is sent for its reads, in order, up to the
/// read that ends it.
pub open spec fn session_replies(reads: Seq<Seq<u8>>) -> Seq<Seq<u8>>
    decreases reads.len(),
{
    if reads.len() == 0 || !answered(reads[0]) {
        seq![]
    } else {
        seq![response_wire(reads[0])] + session_replies(reads.subrange(1, reads.len() as int))
    }
}

/// The reads of connection `who` among reads of two connections, each tagged
/// with the connection it came on.
pub open spec fn reads_of(events: Seq<(bool, Seq<u8>)>, who: bool) -> Seq<Seq<u8>>
    decreases events.len(),
{
    if events.len() == 0 {
        seq![]
    } else {
        let tail = reads_of(events.subrange(1, events.len() as int), who);
        if events[0].0 == who {
            seq![events[0].1] + tail
        } else {
            tail
        }
    }
}

/// Two connections served side by side in the order of `events`: each read on
/// an open connection is answered or closes that connection; reads on a closed
/// one are dropped. The result is what connection `who` is sent.
pub open spec fn served(events: Seq<(bool, Seq<u8>)>, open_a: bool, open_b: bool, who: bool) -> Seq<
    Seq<u8>,
>
    decreases events.len(),
{
    if events.len() == 0 {
        seq![]
    } else {
        let c = events[0].0;
        let d = events[0].1;
        let rest = events.subrange(1, events.len() as int);
        if !(if c {
            open_a
        } else {
            open_b
        }) {
            served(rest, open_a, open_b, who)
        } else if answered(d) {
            let tail = served(rest, open_a, open_b, who);
            if c == who {
                seq![response_wire(d)] + tail
            } else {
                tail
            }
        } else {
            served(rest, open_a && !c, open_b && c, who)
        }
    }
}

/// Connections are independent: however the reads of two connections
/// interleave, and whatever the other one sends (malformed bytes, a close),
/// each is sent exactly the responses it would get alone.
pub proof fn lemma_connections_independent(events: Seq<(bool, Seq<u8>)>, who: bool)
    ensures
        served(events, true, true, who) == session_replies(reads_of(events, who)),
{
    lemma_served(events, true, true, who);
}

proof fn lemma_served(events: Seq<(bool, Seq<u8>)>, open_a: bool, open_b: bool, who: bool)
    ensures
        served(events, open_a, open_b, who) == (if (if who {
            open_a
        } else {
            open_b
        }) {
            session_replies(reads_of(events, who))
        } else {
            seq![]
        }),
    decreases events.len(),
{
    if events.len() > 0 {
        let c = events[0].0;
        let d = events[0].1;
        let rest = events.subrange(1, events.len() as int);
        lemma_served(rest, open_a, open_b, who);
        lemma_served(rest, open_a && !c, open_b && c, who);
        if c == who {
            let rs = reads_of(events, who);
            assert(rs == seq![d] + reads_of(rest, who));
            assert(rs.subrange(1, rs.len() as int) =~= reads_of(rest, who));
        }
    }
}

/// The sum of two `int32`s; on overflow it wraps.
pub fn add_wrapping(a: i32, b: i32) -> (r: i32)
    ensures
        r == wrapping_sum(a, b),
        i32::MIN <= a + b <= i32::MAX ==> r == a + b,
{
    let s: i64 = a as i64 + b as i64;
    if s > i32::MAX as i64 {
        (s - 0x1_0000_0000) as i32
    } else if s < i32::MIN as i64 {
        (s + 0x1_0000_0000) as i32
    } else {
        s as i32
    }
}

/// The response to one request.
pub fn respond(req: ClientMessage) -> (r: ServerMessage)
    ensures
        r == reply_to(req),
{
    match req {
        ClientMessage::EchoMessage(e) => ServerMessage::EchoMessage(e),
        ClientMessage::AddRequest(q) => ServerMessage::AddResponse(
            AddResponse { result: add_wrapping(q.a, q.b) },
        ),
    }
}

/// One request in wire form to its response in wire form.
pub fn handle_request(data: &[u8]) -> (r: Result<Vec<u8>, DecodeError>)
    ensures
        r is Ok <==> exists|m: ClientMessage| client_wire(m) == data@,
        r matches Ok(out) ==> out@ == response_wire(data@),
{
    match decode_client(data) {
        Ok(m) => {
            let ghost gm = m;
            let resp = respond(m);
            let out = encode_server(&resp);
            proof {
                lemma_response_wire(gm);
            }
            Ok(out)
        },
        Err(e) => Err(e),
    }
}

/// An echo comes back unchanged: the response to `Echo(c)` is `Echo(c)`, and
/// on the wire its bytes are the request's bytes.
pub proof fn lemma_echo_identity(e: crate::message::EchoMessage)
    ensures
        reply_to(ClientMessage::EchoMessage(e)) == ServerMessage::EchoMessage(e),
        response_wire(client_wire(ClientMessage::EchoMessage(e))) == client_wire(
            ClientMessage::EchoMessage(e),
        ),
{
    lemma_response_wire(ClientMessage::EchoMessage(e));
}

/// An addition whose sum fits in an `int32` is answered with that sum.
pub proof fn lemma_add_exact(q: crate::message::AddRequest)
    requires
        i32::MIN <= q.a + q.b <= i32::MAX,
    ensures
        reply_to(ClientMessage::AddRequest(q)) == ServerMessage::AddResponse(
            AddResponse { result: (q.a + q.b) as i32 },
        ),
{
}

/// What happened on a connection since the worker last looked.
#[derive(Clone, Debug, PartialEq, Eq)]
pub enum ConnEvent {
    /// A read returned these bytes; none means the peer closed.
    Received(Vec<u8>),
    /// Nothing to read yet.
    WouldBlock,
    /// Reading or writing failed.
    IoFailed,
}

/// What a connection worker does next.
#[derive(Clone, Debug, PartialEq, Eq)]
pub enum WorkerAction {
    /// Write these bytes, flush, and read again.
    Reply(Vec<u8>),
    /// Sleep one poll interval, then read again.
    Pause,
    /// Log the failure and read again.
    Retry,
    /// End this connection's loop and drop the connection.
    Close,
}

/// The decision of a connection worker on one event. A closed peer and a
/// request that does not decode end this connection alone; a blocked read
/// waits; another I/O failure is logged and the loop goes on.
pub fn on_conn_event(ev: ConnEvent) -> (r: WorkerAction)
    ensures
        match ev {
            ConnEvent::Received(d) => if d@.len() == 0 {
                r is Close
            } else if answered(d@) {
                r matches WorkerAction::Reply(out) && out@ == response_wire(d@)
            } else {
                r is Close
            },
            ConnEvent::WouldBlock => r is Pause,
            ConnEvent::IoFailed => r is Retry,
        },
{
    match ev {
        ConnEvent::Received(d) => {
            if d.len() == 0 {
                WorkerAction::Close
            } else {
                match handle_request(d.as_slice()) {
                    Ok(out) => WorkerAction::Reply(out),
                    Err(_) => WorkerAction::Close,
                }
            }
        },
        ConnEvent::WouldBlock => WorkerAction::Pause,
        ConnEvent::IoFailed => WorkerAction::Retry,
    }
}

/// What one attempt to accept a connection gave.
#[derive(Clone, Copy, Debug, PartialEq, Eq, Structural)]
pub enum AcceptEvent {
    Accepted,
    /// No connection is pending.
    WouldBlock,
    Failed,
}

/// What the accept loop does next.
#[derive(Clone, Copy, Debug, PartialEq, Eq, Structural)]
pub enum AcceptAction {
    /// Hand the connection to a new worker and try again at once.
    SpawnWorker,
    /// Sleep one poll interval.
    Pause,
    /// Log the error and go on; it does not stop the server.
    LogAndContinue,
}

/// The decision of the accept loop on one attempt.
pub fn on_accept(ev: AcceptEvent) -> (r: AcceptAction)
    ensures
        ev == AcceptEvent::Accepted ==> r == AcceptAction::SpawnWorker,
        ev == AcceptEvent::WouldBlock ==> r == AcceptAction::Pause,
        ev == AcceptEvent::Failed ==> r == AcceptAction::LogAndContinue,
{
    match ev {
        AcceptEvent::Accepted => AcceptAction::SpawnWorker,
        AcceptEvent::WouldBlock => AcceptAction::Pause,
        AcceptEvent::Failed => AcceptAction::LogAndContinue,
    }
}

} // verus!
