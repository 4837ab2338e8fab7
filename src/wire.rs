//! Primitive pieces of the protobuf wire format: varints and UTF-8 text.
use vstd::prelude::*;

verus! {

/// The LEB128 form of `v`: seven bits per byte, low group first, the high bit
/// set on every byte but the last.
pub open spec fn varint(v: nat) -> Seq<u8>
    decreases v,
{
    if v < 128 {
        seq![v as u8]
    } else {
        seq![(v % 128 + 128) as u8] + varint(v / 128)
    }
}

/// The UTF-8 bytes of a text.
pub uninterp spec fn utf8_of(s: Seq<char>) -> Seq<u8>;

/// No varint is a proper prefix of another: two that both start a sequence are
/// the same.
pub proof fn lemma_varint_prefix_free(x: nat, y: nat, s: Seq<u8>)
    requires
        varint(x).is_prefix_of(s),
        varint(y).is_prefix_of(s),
    ensures
        x == y,
    decreases x,
{
    assert(varint(x)[0] == s[0]);
    assert(varint(y)[0] == s[0]);
    if x < 128 && y < 128 {
    } else if x >= 128 && y >= 128 {
        let t = s.subrange(1, s.len() as int);
        assert(varint(x / 128).is_prefix_of(t)) by {
            assert forall|j: int| 0 <= j < varint(x / 128).len() implies varint(x / 128)[j] == t[j] by {
                assert(varint(x)[1 + j] == s[1 + j]);
            }
            assert(t.subrange(0, varint(x / 128).len() as int) =~= varint(x / 128));
        }
        assert(varint(y / 128).is_prefix_of(t)) by {
            assert forall|j: int| 0 <= j < varint(y / 128).len() implies varint(y / 128)[j] == t[j] by {
                assert(varint(y)[1 + j] == s[1 + j]);
            }
            assert(t.subrange(0, varint(y / 128).len() as int) =~= varint(y / 128));
        }
        lemma_varint_prefix_free(x / 128, y / 128, t);
    } else {
        assert(false);
    }
}

/// Relies on prost::encoding::encode_varint: it appends the LEB128 form of `v`.
#[verifier::external_body]
pub(crate) fn push_varint(out: &mut Vec<u8>, v: u64)
    ensures
        final(out)@ == old(out)@ + varint(v as nat),
{
    prost::encoding::encode_varint(v, out);
}

/// Relies on prost::encoding::decode_varint: it reads one LEB128 integer at the
/// front of `b[pos..]`; the result is the value and the count of bytes left.
#[verifier::external_body]
fn decode_varint_at(b: &[u8], pos: usize) -> (r: Option<(u64, usize)>)
    requires
        pos <= b@.len(),
    ensures
        r matches Some((v, rest)) ==> rest < b@.len() - pos,
        forall|v: u64|
            (#[trigger] varint(v as nat)).is_prefix_of(b@.subrange(pos as int, b@.len() as int)) ==> r == Some(
                (v, (b@.len() - pos - varint(v as nat).len()) as usize),
            ),
{
    let mut s: &[u8] = &b[pos..];
    match prost::encoding::decode_varint(&mut s) {
        Ok(v) => Some((v, s.len())),
        Err(_) => None,
    }
}

/// Relies on str::as_bytes: the UTF-8 bytes of the text.
#[verifier::external_body]
pub(crate) fn utf8_bytes(s: &String) -> (r: Vec<u8>)
    ensures
        r@ == utf8_of(s@),
{
    s.as_bytes().to_vec()
}

/// Relies on String::from_utf8: the text whose UTF-8 bytes are `b[start..]`, if any.
#[verifier::external_body]
pub(crate) fn text_of_utf8(b: &[u8], start: usize) -> (r: Option<String>)
    requires
        start <= b@.len(),
    ensures
        r matches Some(s) ==> utf8_of(s@) == b@.subrange(start as int, b@.len() as int),
        r is None ==> forall|s: Seq<char>|
            #[trigger] utf8_of(s) != b@.subrange(start as int, b@.len() as int),
{
    String::from_utf8(b[start..].to_vec()).ok()
}

/// Reads a varint at `pos` that stands in its shortest form, and hands back its
/// value and the position just after it.
pub fn read_varint(b: &[u8], pos: usize) -> (r: Option<(u64, usize)>)
    requires
        pos <= b@.len(),
    ensures
        r matches Some((v, next)) ==> pos < next <= b@.len() && b@.subrange(pos as int, next as int)
            == varint(v as nat),
        forall|v: u64|
            (#[trigger] varint(v as nat)).is_prefix_of(b@.subrange(pos as int, b@.len() as int)) ==> r == Some(
                (v, (pos + varint(v as nat).len()) as usize),
            ),
{
    let res = decode_varint_at(b, pos);
    match res {
        None => None,
        Some((v, rest)) => {
            let next = b.len() - rest;
            let mut canon: Vec<u8> = Vec::new();
            push_varint(&mut canon, v);
            assert(canon@ =~= varint(v as nat));
            if canon.len() != next - pos {
                return None;
            }
            let mut i: usize = 0;
            while i < canon.len()
                invariant
                    canon@ == varint(v as nat),
                    canon@.len() == next - pos,
                    pos < next <= b@.len(),
                    0 <= i <= canon@.len(),
                    forall|j: int| 0 <= j < i ==> canon@[j] == b@[pos + j],
                    forall|w: u64|
                        (#[trigger] varint(w as nat)).is_prefix_of(
                            b@.subrange(pos as int, b@.len() as int),
                        ) ==> w == v,
                decreases canon@.len() - i,
            {
                if canon[i] != b[pos + i] {
                    proof {
                        let tail = b@.subrange(pos as int, b@.len() as int);
                        assert forall|w: u64| !#[trigger] varint(w as nat).is_prefix_of(tail) by {
                            if varint(w as nat).is_prefix_of(tail) {
                                assert(w == v);
                                assert(tail[i as int] == b@[pos + i]);
                            }
                        }
                    }
                    return None;
                }
                i = i + 1;
            }
            assert(b@.subrange(pos as int, next as int) =~= varint(v as nat));
            Some((v, next))
        },
    }
}

} // verus!
