//! The two envelopes and their protobuf wire form.
//!
//! A request envelope holds an echo (field 1) or an addition (field 2); a
//! response envelope holds an echo (field 1) or a sum (field 2). Fields that
//! hold their default value are left out, as proto3 does. Decoding accepts
//! exactly the bytes that encoding produces.
use crate::wire::{
    lemma_varint_prefix_free, push_varint, read_varint, text_of_utf8, utf8_bytes, utf8_of, varint,
};
use vstd::prelude::*;

verus! {

/// Key of field 1 with length-delimited contents.
pub const KEY_FIELD1_LEN: u8 = 0x0A;

/// Key of field 2 with length-delimited contents.
pub const KEY_FIELD2_LEN: u8 = 0x12;

/// Key of field 1 holding a varint.
pub const KEY_FIELD1_VARINT: u8 = 0x08;

/// Key of field 2 holding a varint.
pub const KEY_FIELD2_VARINT: u8 = 0x10;

#[derive(Clone, Debug, PartialEq, Eq)]
pub struct EchoMessage {
    pub content: String,
}

#[derive(Clone, Copy, Debug, PartialEq, Eq)]
pub struct AddRequest {
    pub a: i32,
    pub b: i32,
}

#[derive(Clone, Copy, Debug, PartialEq, Eq)]
pub struct AddResponse {
    pub result: i32,
}

/// A request from a client.
#[derive(Clone, Debug, PartialEq, Eq)]
pub enum ClientMessage {
    EchoMessage(EchoMessage),
    AddRequest(AddRequest),
}

/// A response of the server.
#[derive(Clone, Debug, PartialEq, Eq)]
pub enum ServerMessage {
    EchoMessage(EchoMessage),
    AddResponse(AddResponse),
}

/// The bytes are not the wire form of any envelope.
#[derive(Clone, Copy, Debug, PartialEq, Eq)]
pub struct DecodeError;

/// An `int32` goes on the wire as the 64-bit two's complement of its value.
pub open spec fn int32_wire(x: i32) -> nat {
    if x >= 0 {
        x as nat
    } else {
        (x + 0x1_0000_0000_0000_0000) as nat
    }
}

/// A length-delimited field: key, length, contents.
pub open spec fn len_field(key: u8, body: Seq<u8>) -> Seq<u8> {
    seq![key] + varint(body.len()) + body
}

/// An `int32` field, left out when it is zero.
pub open spec fn int_field(key: u8, x: i32) -> Seq<u8> {
    if x == 0 {
        seq![]
    } else {
        seq![key] + varint(int32_wire(x))
    }
}

/// A text field, left out when it is empty.
pub open spec fn text_field(key: u8, t: Seq<u8>) -> Seq<u8> {
    if t.len() == 0 {
        seq![]
    } else {
        len_field(key, t)
    }
}

pub open spec fn echo_wire(e: EchoMessage) -> Seq<u8> {
    text_field(KEY_FIELD1_LEN, utf8_of(e.content@))
}

pub open spec fn add_request_wire(r: AddRequest) -> Seq<u8> {
    int_field(KEY_FIELD1_VARINT, r.a) + int_field(KEY_FIELD2_VARINT, r.b)
}

pub open spec fn add_response_wire(r: AddResponse) -> Seq<u8> {
    int_field(KEY_FIELD1_VARINT, r.result)
}

/// The wire form of a request envelope.
pub open spec fn client_wire(m: ClientMessage) -> Seq<u8> {
    match m {
        ClientMessage::EchoMessage(e) => len_field(KEY_FIELD1_LEN, echo_wire(e)),
        ClientMessage::AddRequest(r) => len_field(KEY_FIELD2_LEN, add_request_wire(r)),
    }
}

/// The wire form of a response envelope.
pub open spec fn server_wire(m: ServerMessage) -> Seq<u8> {
    match m {
        ServerMessage::EchoMessage(e) => len_field(KEY_FIELD1_LEN, echo_wire(e)),
        ServerMessage::AddResponse(r) => len_field(KEY_FIELD2_LEN, add_response_wire(r)),
    }
}

fn push_bytes(out: &mut Vec<u8>, b: &Vec<u8>)
    ensures
        final(out)@ == old(out)@ + b@,
{
    let ghost start = out@;
    let mut i: usize = 0;
    while i < b.len()
        invariant
            0 <= i <= b@.len(),
            out@ == start + b@.subrange(0, i as int),
        decreases b@.len() - i,
    {
        out.push(b[i]);
        i = i + 1;
        assert(out@ =~= start + b@.subrange(0, i as int));
    }
    assert(b@.subrange(0, b@.len() as int) =~= b@);
}

fn push_len_field(out: &mut Vec<u8>, key: u8, body: &Vec<u8>)
    ensures
        final(out)@ == old(out)@ + len_field(key, body@),
{
    let ghost start = out@;
    out.push(key);
    push_varint(out, body.len() as u64);
    push_bytes(out, body);
    assert(out@ =~= start + len_field(key, body@));
}

fn wire_of_i32(x: i32) -> (r: u64)
    ensures
        r as nat == int32_wire(x),
{
    if x >= 0 {
        x as u64
    } else {
        u64::MAX - ((-(x as i64) - 1) as u64)
    }
}

fn push_int_field(out: &mut Vec<u8>, key: u8, x: i32)
    ensures
        final(out)@ == old(out)@ + int_field(key, x),
{
    let ghost start = out@;
    if x != 0 {
        out.push(key);
        push_varint(out, wire_of_i32(x));
        assert(out@ =~= start + int_field(key, x));
    } else {
        assert(out@ =~= start + int_field(key, x));
    }
}

fn push_echo(out: &mut Vec<u8>, e: &EchoMessage)
    ensures
        final(out)@ == old(out)@ + len_field(KEY_FIELD1_LEN, echo_wire(*e)),
{
    let text = utf8_bytes(&e.content);
    let mut body: Vec<u8> = Vec::new();
    if text.len() != 0 {
        push_len_field(&mut body, KEY_FIELD1_LEN, &text);
    }
    assert(body@ =~= echo_wire(*e));
    push_len_field(out, KEY_FIELD1_LEN, &body);
}

/// The wire form of a request envelope.
pub fn encode_client(m: &ClientMessage) -> (r: Vec<u8>)
    ensures
        r@ == client_wire(*m),
{
    let mut out: Vec<u8> = Vec::new();
    match m {
        ClientMessage::EchoMessage(e) => push_echo(&mut out, e),
        ClientMessage::AddRequest(q) => {
            let mut body: Vec<u8> = Vec::new();
            push_int_field(&mut body, KEY_FIELD1_VARINT, q.a);
            push_int_field(&mut body, KEY_FIELD2_VARINT, q.b);
            assert(body@ =~= add_request_wire(*q));
            push_len_field(&mut out, KEY_FIELD2_LEN, &body);
        },
    }
    assert(out@ =~= client_wire(*m));
    out
}

/// The wire form of a response envelope.
pub fn encode_server(m: &ServerMessage) -> (r: Vec<u8>)
    ensures
        r@ == server_wire(*m),
{
    let mut out: Vec<u8> = Vec::new();
    match m {
        ServerMessage::EchoMessage(e) => push_echo(&mut out, e),
        ServerMessage::AddResponse(s) => {
            let mut body: Vec<u8> = Vec::new();
            push_int_field(&mut body, KEY_FIELD1_VARINT, s.result);
            assert(body@ =~= add_response_wire(*s));
            push_len_field(&mut out, KEY_FIELD2_LEN, &body);
        },
    }
    assert(out@ =~= server_wire(*m));
    out
}

proof fn lemma_after_key(b: Seq<u8>, pos: int, key: u8, v: Seq<u8>, rest: Seq<u8>)
    requires
        0 <= pos <= b.len(),
        (seq![key] + v + rest).is_prefix_of(b.subrange(pos, b.len() as int)),
    ensures
        pos < b.len(),
        b[pos] == key,
        v.is_prefix_of(b.subrange(pos + 1, b.len() as int)),
{
    let t = seq![key] + v + rest;
    let tail = b.subrange(pos, b.len() as int);
    assert(t[0] == tail[0]);
    assert forall|j: int| 0 <= j < v.len() implies b.subrange(pos + 1, b.len() as int).subrange(
        0,
        v.len() as int,
    )[j] == v[j] by {
        assert(t[1 + j] == v[j]);
        assert(t[1 + j] == tail[1 + j]);
    }
    assert(b.subrange(pos + 1, b.len() as int).subrange(0, v.len() as int) =~= v);
}

proof fn lemma_int_field_unique(key: u8, x: i32, y: i32, s: Seq<u8>)
    requires
        int_field(key, x).is_prefix_of(s),
        int_field(key, y).is_prefix_of(s),
        x == 0 ==> !(s.len() > 0 && s[0] == key),
        y == 0 ==> !(s.len() > 0 && s[0] == key),
    ensures
        x == y,
{
    if x != 0 {
        assert(int_field(key, x)[0] == s[0]);
    }
    if y != 0 {
        assert(int_field(key, y)[0] == s[0]);
    }
    if x != 0 && y != 0 {
        assert(int_field(key, x) =~= seq![key] + varint(int32_wire(x)) + seq![]);
        assert(int_field(key, y) =~= seq![key] + varint(int32_wire(y)) + seq![]);
        assert(s.subrange(0, s.len() as int) =~= s);
        lemma_after_key(s, 0, key, varint(int32_wire(x)), seq![]);
        lemma_after_key(s, 0, key, varint(int32_wire(y)), seq![]);
        lemma_varint_prefix_free(int32_wire(x), int32_wire(y), s.subrange(1, s.len() as int));
    }
}

/// Two additions with the same wire form are the same addition.
pub proof fn lemma_add_request_wire_injective(q1: AddRequest, q2: AddRequest)
    requires
        add_request_wire(q1) == add_request_wire(q2),
    ensures
        q1 == q2,
{
    let s = add_request_wire(q1);
    let f1 = int_field(KEY_FIELD1_VARINT, q1.a);
    let f2 = int_field(KEY_FIELD1_VARINT, q2.a);
    let g1 = int_field(KEY_FIELD2_VARINT, q1.b);
    let g2 = int_field(KEY_FIELD2_VARINT, q2.b);
    assert(s.subrange(0, f1.len() as int) =~= f1);
    assert(s.subrange(0, f2.len() as int) =~= f2);
    if q1.a == 0 && s.len() > 0 {
        assert(s[0] == g1[0]);
    }
    if q2.a == 0 && s.len() > 0 {
        assert(s[0] == g2[0]);
    }
    lemma_int_field_unique(KEY_FIELD1_VARINT, q1.a, q2.a, s);
    assert(g1 =~= s.subrange(f1.len() as int, s.len() as int));
    assert(g2 =~= s.subrange(f1.len() as int, s.len() as int));
    assert(g1.subrange(0, g1.len() as int) =~= g1);
    lemma_int_field_unique(KEY_FIELD2_VARINT, q1.b, q2.b, g1);
}

/// Two length-delimited fields with the same key and the same wire form hold
/// the same contents.
pub proof fn lemma_len_field_injective(key: u8, b1: Seq<u8>, b2: Seq<u8>)
    requires
        len_field(key, b1) == len_field(key, b2),
    ensures
        b1 == b2,
{
    let s = len_field(key, b1);
    assert(s.subrange(0, s.len() as int) =~= s);
    lemma_after_key(s, 0, key, varint(b1.len()), b1);
    assert(len_field(key, b2) =~= seq![key] + varint(b2.len()) + b2);
    lemma_after_key(s, 0, key, varint(b2.len()), b2);
    lemma_varint_prefix_free(b1.len(), b2.len(), s.subrange(1, s.len() as int));
    assert(b1 =~= s.subrange(s.len() - b1.len(), s.len() as int));
    assert(b2 =~= s.subrange(s.len() - b2.len(), s.len() as int));
}

/// Reads a length-delimited field with key `key` at `pos` whose contents run to
/// the end of `b`; hands back where the contents start.
fn read_len_field(b: &[u8], pos: usize, key: u8) -> (r: Option<usize>)
    requires
        pos <= b@.len(),
    ensures
        r matches Some(start) ==> pos < start <= b@.len() && b@.subrange(pos as int, b@.len() as int)
            == len_field(key, b@.subrange(start as int, b@.len() as int)),
        forall|body: Seq<u8>|
            b@.subrange(pos as int, b@.len() as int) == #[trigger] len_field(key, body) ==> r == Some(
                (b@.len() - body.len()) as usize,
            ),
{
    let n = b.len();
    let ghost sub = b@.subrange(pos as int, b@.len() as int);
    proof {
        assert forall|body: Seq<u8>| sub == #[trigger] len_field(key, body) implies b@[pos as int]
            == key && pos < b@.len() && varint(body.len()).is_prefix_of(
            b@.subrange(pos + 1, b@.len() as int),
        ) && body.len() <= b@.len() by {
            assert(len_field(key, body).is_prefix_of(sub)) by {
                assert(sub.subrange(0, sub.len() as int) =~= sub);
            }
            assert(len_field(key, body).len() == 1 + varint(body.len()).len() + body.len());
            lemma_after_key(b@, pos as int, key, varint(body.len()), body);
        }
    }
    if pos >= b.len() || b[pos] != key {
        return None;
    }
    let rv = read_varint(b, pos + 1);
    proof {
        assert forall|body: Seq<u8>| sub == #[trigger] len_field(key, body) implies rv == Some(
            ((body.len() as u64), (pos + 1 + varint(body.len()).len()) as usize),
        ) && pos + 1 + varint(body.len()).len() + body.len() == n by {
            assert(body.len() <= n);
            assert(len_field(key, body).len() == 1 + varint(body.len()).len() + body.len());
            let u = body.len() as u64;
            assert(u as nat == body.len());
            assert(varint(u as nat) == varint(body.len()));
        }
    }
    match rv {
        None => None,
        Some((l, next)) => {
            if (b.len() - next) as u64 == l {
                assert(sub =~= len_field(key, b@.subrange(next as int, b@.len() as int))) by {
                    assert(sub =~= seq![key] + b@.subrange(pos + 1, next as int) + b@.subrange(
                        next as int,
                        b@.len() as int,
                    ));
                }
                Some(next)
            } else {
                None
            }
        },
    }
}

fn i32_of_wire(w: u64) -> (r: Option<i32>)
    ensures
        r matches Some(x) ==> x != 0 && int32_wire(x) == w,
        forall|x: i32| x != 0 && #[trigger] int32_wire(x) == w ==> r == Some(x),
{
    if w == 0 {
        None
    } else if w < 0x8000_0000 {
        Some(w as i32)
    } else if w >= 0xFFFF_FFFF_8000_0000 {
        let d = u64::MAX - w;
        Some(-(d as i32) - 1)
    } else {
        None
    }
}

/// Reads an `int32` field with key `key` at `pos`, or its absence.
fn read_int_field(b: &[u8], pos: usize, key: u8) -> (r: Option<(i32, usize)>)
    requires
        pos <= b@.len(),
    ensures
        r matches Some((x, next)) ==> pos <= next <= b@.len() && b@.subrange(pos as int, next as int)
            == int_field(key, x),
        forall|x: i32|
            (#[trigger] int_field(key, x)).is_prefix_of(b@.subrange(pos as int, b@.len() as int))
                && (x == 0 ==> !(pos < b@.len() && b@[pos as int] == key)) ==> r == Some(
                (x, (pos + int_field(key, x).len()) as usize),
            ),
{
    if pos >= b.len() || b[pos] != key {
        assert(b@.subrange(pos as int, pos as int) =~= int_field(key, 0));
        proof {
            assert forall|x: i32|
                (#[trigger] int_field(key, x)).is_prefix_of(
                    b@.subrange(pos as int, b@.len() as int),
                ) implies x == 0 by {
                if x != 0 {
                    lemma_after_key(b@, pos as int, key, varint(int32_wire(x)), seq![]);
                }
            }
        }
        return Some((0, pos));
    }
    let rv = read_varint(b, pos + 1);
    proof {
        assert forall|x: i32|
            x != 0 && (#[trigger] int_field(key, x)).is_prefix_of(
                b@.subrange(pos as int, b@.len() as int),
            ) implies rv == Some(
            ((int32_wire(x) as u64), (pos + 1 + varint(int32_wire(x)).len()) as usize),
        ) by {
            let v = varint(int32_wire(x));
            assert(int_field(key, x) =~= seq![key] + v + seq![]);
            lemma_after_key(b@, pos as int, key, v, seq![]);
            let u = int32_wire(x) as u64;
            assert(varint(u as nat) == v);
        }
    }
    match rv {
        None => None,
        Some((w, next)) => {
            match i32_of_wire(w) {
                None => {
                    proof {
                        assert forall|x: i32|
                            (#[trigger] int_field(key, x)).is_prefix_of(
                                b@.subrange(pos as int, b@.len() as int),
                            ) implies x == 0 by {
                            if x != 0 {
                                let v = varint(int32_wire(x));
                                assert(int_field(key, x) =~= seq![key] + v + seq![]);
                                lemma_after_key(b@, pos as int, key, v, seq![]);
                                let u = int32_wire(x) as u64;
                                assert(varint(u as nat) == v);
                                assert(int32_wire(x) == w);
                            }
                        }
                    }
                    None
                },
                Some(x) => {
                    assert(b@.subrange(pos as int, next as int) =~= int_field(key, x)) by {
                        assert(b@.subrange(pos as int, next as int) =~= seq![key] + b@.subrange(
                            pos + 1,
                            next as int,
                        ));
                    }
                    proof {
                        assert forall|y: i32|
                            y != 0 && (#[trigger] int_field(key, y)).is_prefix_of(
                                b@.subrange(pos as int, b@.len() as int),
                            ) implies y == x by {
                            assert(int32_wire(y) < 0x1_0000_0000_0000_0000);
                            assert(int32_wire(y) == w);
                        }
                    }
                    Some((x, next))
                },
            }
        },
    }
}

/// The echo whose wire form is `b[start..]`, if any.
fn read_echo(b: &[u8], start: usize) -> (r: Option<EchoMessage>)
    requires
        start <= b@.len(),
    ensures
        r matches Some(e) ==> echo_wire(e) == b@.subrange(start as int, b@.len() as int),
        (exists|e: EchoMessage| echo_wire(e) == b@.subrange(start as int, b@.len() as int))
            ==> r is Some,
{
    let ghost sub = b@.subrange(start as int, b@.len() as int);
    if start == b.len() {
        match text_of_utf8(b, start) {
            Some(content) => Some(EchoMessage { content }),
            None => {
                proof {
                    assert forall|e: EchoMessage| echo_wire(e) != sub by {
                        if echo_wire(e) == sub {
                            assert(utf8_of(e.content@).len() == 0);
                            assert(utf8_of(e.content@) =~= sub);
                        }
                    }
                }
                None
            },
        }
    } else {
        proof {
            assert forall|e: EchoMessage| echo_wire(e) == sub implies len_field(
                KEY_FIELD1_LEN,
                utf8_of(e.content@),
            ) == sub && utf8_of(e.content@).len() > 0 by {}
        }
        match read_len_field(b, start, KEY_FIELD1_LEN) {
            None => None,
            Some(ts) => {
                if ts == b.len() {
                    return None;
                }
                match text_of_utf8(b, ts) {
                    Some(content) => Some(EchoMessage { content }),
                    None => {
                        proof {
                            assert forall|e: EchoMessage| echo_wire(e) != sub by {
                                if echo_wire(e) == sub {
                                    let t = utf8_of(e.content@);
                                    assert(len_field(KEY_FIELD1_LEN, t) == sub);
                                    assert(ts == b@.len() - t.len());
                                    assert(sub.subrange(sub.len() - t.len(), sub.len() as int) =~= t);
                                    assert(b@.subrange(ts as int, b@.len() as int) =~= t);
                                }
                            }
                        }
                        None
                    },
                }
            },
        }
    }
}

/// The addition request whose wire form is `b[start..]`, if any.
fn read_add_request(b: &[u8], start: usize) -> (r: Option<AddRequest>)
    requires
        start <= b@.len(),
    ensures
        r matches Some(q) ==> add_request_wire(q) == b@.subrange(start as int, b@.len() as int),
        (exists|q: AddRequest| add_request_wire(q) == b@.subrange(start as int, b@.len() as int))
            ==> r is Some,
{
    let ghost sub = b@.subrange(start as int, b@.len() as int);
    proof {
        assert forall|q: AddRequest| add_request_wire(q) == sub implies (#[trigger] int_field(
            KEY_FIELD1_VARINT,
            q.a,
        )).is_prefix_of(sub) by {
            assert(sub.subrange(0, int_field(KEY_FIELD1_VARINT, q.a).len() as int) =~= int_field(
                KEY_FIELD1_VARINT,
                q.a,
            ));
        }
    }
    let (a, p1) = match read_int_field(b, start, KEY_FIELD1_VARINT) {
        Some(x) => x,
        None => {
            proof {
                assert forall|q: AddRequest| add_request_wire(q) != sub by {
                    if add_request_wire(q) == sub {
                        if q.a == 0 && start < b@.len() {
                            assert(sub[0] == b@[start as int]);
                            assert(sub[0] == KEY_FIELD2_VARINT);
                        }
                    }
                }
            }
            return None;
        },
    };
    let ghost sub1 = b@.subrange(p1 as int, b@.len() as int);
    proof {
        assert forall|q: AddRequest| add_request_wire(q) == sub implies q.a == a && sub1
            == int_field(KEY_FIELD2_VARINT, q.b) by {
            if q.a == 0 && start < b@.len() {
                assert(sub[0] == b@[start as int]);
                assert(sub[0] == KEY_FIELD2_VARINT);
            }
            assert(sub1 =~= sub.subrange(int_field(KEY_FIELD1_VARINT, q.a).len() as int, sub.len() as int));
        }
    }
    let (c, p2) = match read_int_field(b, p1, KEY_FIELD2_VARINT) {
        Some(x) => x,
        None => {
            proof {
                assert forall|q: AddRequest| add_request_wire(q) != sub by {
                    if add_request_wire(q) == sub {
                        assert(int_field(KEY_FIELD2_VARINT, q.b).is_prefix_of(sub1)) by {
                            assert(sub1.subrange(0, sub1.len() as int) =~= sub1);
                        }
                    }
                }
            }
            return None;
        },
    };
    if p2 != b.len() {
        proof {
            assert forall|q: AddRequest| add_request_wire(q) != sub by {
                if add_request_wire(q) == sub {
                    assert(int_field(KEY_FIELD2_VARINT, q.b).is_prefix_of(sub1)) by {
                        assert(sub1.subrange(0, sub1.len() as int) =~= sub1);
                    }
                }
            }
        }
        return None;
    }
    let q = AddRequest { a, b: c };
    assert(sub =~= b@.subrange(start as int, p1 as int) + b@.subrange(p1 as int, p2 as int));
    Some(q)
}

/// The sum whose wire form is `b[start..]`, if any.
fn read_add_response(b: &[u8], start: usize) -> (r: Option<AddResponse>)
    requires
        start <= b@.len(),
    ensures
        r matches Some(s) ==> add_response_wire(s) == b@.subrange(start as int, b@.len() as int),
        (exists|s: AddResponse| add_response_wire(s) == b@.subrange(start as int, b@.len() as int))
            ==> r is Some,
{
    let ghost sub = b@.subrange(start as int, b@.len() as int);
    proof {
        assert forall|s: AddResponse| add_response_wire(s) == sub implies (#[trigger] int_field(
            KEY_FIELD1_VARINT,
            s.result,
        )).is_prefix_of(sub) && (s.result == 0 ==> start == b@.len()) by {
            assert(sub.subrange(0, sub.len() as int) =~= sub);
        }
    }
    match read_int_field(b, start, KEY_FIELD1_VARINT) {
        None => None,
        Some((x, next)) => {
            if next == b.len() {
                Some(AddResponse { result: x })
            } else {
                None
            }
        },
    }
}

/// The request envelope whose wire form is `b`. Exactly the outputs of
/// `encode_client` decode.
pub fn decode_client(b: &[u8]) -> (r: Result<ClientMessage, DecodeError>)
    ensures
        r matches Ok(m) ==> client_wire(m) == b@,
        (exists|m: ClientMessage| client_wire(m) == b@) <==> r is Ok,
{
    let ghost whole = b@.subrange(0, b@.len() as int);
    assert(whole =~= b@);
    if b.len() == 0 {
        proof {
            assert forall|m: ClientMessage| client_wire(m) != b@ by {
                assert(client_wire(m).len() >= 1);
            }
        }
        return Err(DecodeError);
    }
    if b[0] == KEY_FIELD1_LEN {
        let start = match read_len_field(b, 0, KEY_FIELD1_LEN) {
            Some(start) => start,
            None => {
                proof {
                    assert forall|m: ClientMessage| client_wire(m) != b@ by {
                        if client_wire(m) == b@ {
                            if let ClientMessage::EchoMessage(e) = m {
                                assert(whole == len_field(KEY_FIELD1_LEN, echo_wire(e)));
                            }
                        }
                    }
                }
                return Err(DecodeError);
            },
        };
        proof {
            assert forall|e: EchoMessage|
                client_wire(ClientMessage::EchoMessage(e)) == b@ implies echo_wire(e) == b@.subrange(
                start as int,
                b@.len() as int,
            ) by {
                let t = echo_wire(e);
                assert(whole == len_field(KEY_FIELD1_LEN, t));
                assert(whole.subrange(whole.len() - t.len(), whole.len() as int) =~= t);
            }
        }
        match read_echo(b, start) {
            Some(e) => {
                let m = ClientMessage::EchoMessage(e);
                assert(client_wire(m) == b@);
                Ok(m)
            },
            None => {
                proof {
                    if exists|m: ClientMessage| client_wire(m) == b@ {
                        let m = choose|m: ClientMessage| client_wire(m) == b@;
                        match m {
                            ClientMessage::EchoMessage(e) => {
                                assert(echo_wire(e) == b@.subrange(start as int, b@.len() as int));
                            },
                            ClientMessage::AddRequest(_) => {
                                assert(whole[0] == KEY_FIELD2_LEN);
                            },
                        }
                    }
                }
                Err(DecodeError)
            },
        }
    } else if b[0] == KEY_FIELD2_LEN {
        let start = match read_len_field(b, 0, KEY_FIELD2_LEN) {
            Some(start) => start,
            None => {
                proof {
                    assert forall|m: ClientMessage| client_wire(m) != b@ by {
                        if client_wire(m) == b@ {
                            if let ClientMessage::AddRequest(q) = m {
                                assert(whole == len_field(KEY_FIELD2_LEN, add_request_wire(q)));
                            }
                        }
                    }
                }
                return Err(DecodeError);
            },
        };
        proof {
            assert forall|q: AddRequest|
                client_wire(ClientMessage::AddRequest(q)) == b@ implies add_request_wire(q)
                == b@.subrange(start as int, b@.len() as int) by {
                let t = add_request_wire(q);
                assert(whole == len_field(KEY_FIELD2_LEN, t));
                assert(whole.subrange(whole.len() - t.len(), whole.len() as int) =~= t);
            }
        }
        match read_add_request(b, start) {
            Some(q) => {
                let m = ClientMessage::AddRequest(q);
                assert(client_wire(m) == b@);
                Ok(m)
            },
            None => {
                proof {
                    if exists|m: ClientMessage| client_wire(m) == b@ {
                        let m = choose|m: ClientMessage| client_wire(m) == b@;
                        match m {
                            ClientMessage::EchoMessage(_) => {
                                assert(whole[0] == KEY_FIELD1_LEN);
                            },
                            ClientMessage::AddRequest(q) => {
                                assert(add_request_wire(q) == b@.subrange(
                                    start as int,
                                    b@.len() as int,
                                ));
                            },
                        }
                    }
                }
                Err(DecodeError)
            },
        }
    } else {
        proof {
            assert forall|m: ClientMessage| client_wire(m) != b@ by {
                if client_wire(m) == b@ {
                    assert(whole[0] == b@[0]);
                }
            }
        }
        Err(DecodeError)
    }
}

/// The response envelope whose wire form is `b`. Exactly the outputs of
/// `encode_server` decode.
pub fn decode_server(b: &[u8]) -> (r: Result<ServerMessage, DecodeError>)
    ensures
        r matches Ok(m) ==> server_wire(m) == b@,
        (exists|m: ServerMessage| server_wire(m) == b@) <==> r is Ok,
{
    let ghost whole = b@.subrange(0, b@.len() as int);
    assert(whole =~= b@);
    if b.len() == 0 {
        proof {
            assert forall|m: ServerMessage| server_wire(m) != b@ by {
                assert(server_wire(m).len() >= 1);
            }
        }
        return Err(DecodeError);
    }
    if b[0] == KEY_FIELD1_LEN {
        let start = match read_len_field(b, 0, KEY_FIELD1_LEN) {
            Some(start) => start,
            None => {
                proof {
                    assert forall|m: ServerMessage| server_wire(m) != b@ by {
                        if server_wire(m) == b@ {
                            if let ServerMessage::EchoMessage(e) = m {
                                assert(whole == len_field(KEY_FIELD1_LEN, echo_wire(e)));
                            }
                        }
                    }
                }
                return Err(DecodeError);
            },
        };
        proof {
            assert forall|e: EchoMessage|
                server_wire(ServerMessage::EchoMessage(e)) == b@ implies echo_wire(e) == b@.subrange(
                start as int,
                b@.len() as int,
            ) by {
                let t = echo_wire(e);
                assert(whole == len_field(KEY_FIELD1_LEN, t));
                assert(whole.subrange(whole.len() - t.len(), whole.len() as int) =~= t);
            }
        }
        match read_echo(b, start) {
            Some(e) => {
                let m = ServerMessage::EchoMessage(e);
                assert(server_wire(m) == b@);
                Ok(m)
            },
            None => {
                proof {
                    if exists|m: ServerMessage| server_wire(m) == b@ {
                        let m = choose|m: ServerMessage| server_wire(m) == b@;
                        match m {
                            ServerMessage::EchoMessage(e) => {
                                assert(echo_wire(e) == b@.subrange(start as int, b@.len() as int));
                            },
                            ServerMessage::AddResponse(_) => {
                                assert(whole[0] == KEY_FIELD2_LEN);
                            },
                        }
                    }
                }
                Err(DecodeError)
            },
        }
    } else if b[0] == KEY_FIELD2_LEN {
        let start = match read_len_field(b, 0, KEY_FIELD2_LEN) {
            Some(start) => start,
            None => {
                proof {
                    assert forall|m: ServerMessage| server_wire(m) != b@ by {
                        if server_wire(m) == b@ {
                            if let ServerMessage::AddResponse(s) = m {
                                assert(whole == len_field(KEY_FIELD2_LEN, add_response_wire(s)));
                            }
                        }
                    }
                }
                return Err(DecodeError);
            },
        };
        proof {
            assert forall|s: AddResponse|
                server_wire(ServerMessage::AddResponse(s)) == b@ implies add_response_wire(s)
                == b@.subrange(start as int, b@.len() as int) by {
                let t = add_response_wire(s);
                assert(whole == len_field(KEY_FIELD2_LEN, t));
                assert(whole.subrange(whole.len() - t.len(), whole.len() as int) =~= t);
            }
        }
        match read_add_response(b, start) {
            Some(s) => {
                let m = ServerMessage::AddResponse(s);
                assert(server_wire(m) == b@);
                Ok(m)
            },
            None => {
                proof {
                    if exists|m: ServerMessage| server_wire(m) == b@ {
                        let m = choose|m: ServerMessage| server_wire(m) == b@;
                        match m {
                            ServerMessage::EchoMessage(_) => {
                                assert(whole[0] == KEY_FIELD1_LEN);
                            },
                            ServerMessage::AddResponse(q) => {
                                assert(add_response_wire(q) == b@.subrange(
                                    start as int,
                                    b@.len() as int,
                                ));
                            },
                        }
                    }
                }
                Err(DecodeError)
            },
        }
    } else {
        proof {
            assert forall|m: ServerMessage| server_wire(m) != b@ by {
                if server_wire(m) == b@ {
                    assert(whole[0] == b@[0]);
                }
            }
        }
        Err(DecodeError)
    }
}

} // verus!
