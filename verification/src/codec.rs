//! Byte-level encodings used for persisted records.
//!
//! Identifiers are stored as their 8-byte little-endian form; string payloads
//! are stored as their UTF-8 bytes. Both encodings are proved injective and
//! round-trip safe, which is what the identity table's bijection rests on.

use vstd::prelude::*;

verus! {

/// The 8-byte little-endian encoding of a 64-bit identifier.
pub open spec fn u64_le(v: u64) -> Seq<u8> {
    seq![
        (v & 0xff) as u8,
        ((v >> 8) & 0xff) as u8,
        ((v >> 16) & 0xff) as u8,
        ((v >> 24) & 0xff) as u8,
        ((v >> 32) & 0xff) as u8,
        ((v >> 40) & 0xff) as u8,
        ((v >> 48) & 0xff) as u8,
        ((v >> 56) & 0xff) as u8,
    ]
}

/// Two identifiers with the same encoding are the same identifier.
pub proof fn lemma_u64_le_injective(a: u64, b: u64)
    requires
        u64_le(a) == u64_le(b),
    ensures
        a == b,
{
    assert(u64_le(a)[0] == u64_le(b)[0]);
    assert(u64_le(a)[1] == u64_le(b)[1]);
    assert(u64_le(a)[2] == u64_le(b)[2]);
    assert(u64_le(a)[3] == u64_le(b)[3]);
    assert(u64_le(a)[4] == u64_le(b)[4]);
    assert(u64_le(a)[5] == u64_le(b)[5]);
    assert(u64_le(a)[6] == u64_le(b)[6]);
    assert(a == b) by (bit_vector)
        requires
            (a & 0xff) as u8 == (b & 0xff) as u8,
            ((a >> 8) & 0xff) as u8 == ((b >> 8) & 0xff) as u8,
            ((a >> 16) & 0xff) as u8 == ((b >> 16) & 0xff) as u8,
            ((a >> 24) & 0xff) as u8 == ((b >> 24) & 0xff) as u8,
            ((a >> 32) & 0xff) as u8 == ((b >> 32) & 0xff) as u8,
            ((a >> 40) & 0xff) as u8 == ((b >> 40) & 0xff) as u8,
            ((a >> 48) & 0xff) as u8 == ((b >> 48) & 0xff) as u8,
            ((a >> 56) & 0xff) as u8 == ((b >> 56) & 0xff) as u8,
    ;
}

/// Encode an identifier as its 8 little-endian bytes.
pub fn encode_u64(v: u64) -> (r: Vec<u8>)
    ensures
        r@ == u64_le(v),
{
    let mut r: Vec<u8> = Vec::new();
    r.push((v & 0xff) as u8);
    r.push(((v >> 8) & 0xff) as u8);
    r.push(((v >> 16) & 0xff) as u8);
    r.push(((v >> 24) & 0xff) as u8);
    r.push(((v >> 32) & 0xff) as u8);
    r.push(((v >> 40) & 0xff) as u8);
    r.push(((v >> 48) & 0xff) as u8);
    r.push(((v >> 56) & 0xff) as u8);
    proof {
        assert(r@ =~= u64_le(v));
    }
    r
}

/// Decode an identifier from its 8 little-endian bytes; rejects any byte
/// string that is not such an encoding.
pub fn decode_u64(b: &Vec<u8>) -> (r: Option<u64>)
    ensures
        match r {
            Some(v) => b@ == u64_le(v),
            None => forall|v: u64| b@ != u64_le(v),
        },
{
    if b.len() != 8 {
        proof {
            assert(forall|v: u64| u64_le(v).len() == 8);
        }
        return None;
    }
    let b0 = b[0];
    let b1 = b[1];
    let b2 = b[2];
    let b3 = b[3];
    let b4 = b[4];
    let b5 = b[5];
    let b6 = b[6];
    let b7 = b[7];
    let v: u64 = (b0 as u64) | ((b1 as u64) << 8) | ((b2 as u64) << 16) | ((b3 as u64) << 24)
        | ((b4 as u64) << 32) | ((b5 as u64) << 40) | ((b6 as u64) << 48) | ((b7 as u64) << 56);
    proof {
        let v0 = v;
        assert((v0 & 0xff) as u8 == b0 && ((v0 >> 8) & 0xff) as u8 == b1
            && ((v0 >> 16) & 0xff) as u8 == b2 && ((v0 >> 24) & 0xff) as u8 == b3
            && ((v0 >> 32) & 0xff) as u8 == b4 && ((v0 >> 40) & 0xff) as u8 == b5
            && ((v0 >> 48) & 0xff) as u8 == b6 && ((v0 >> 56) & 0xff) as u8 == b7) by (bit_vector)
            requires
                v0 == (b0 as u64) | ((b1 as u64) << 8) | ((b2 as u64) << 16) | ((b3 as u64) << 24)
                    | ((b4 as u64) << 32) | ((b5 as u64) << 40) | ((b6 as u64) << 48)
                    | ((b7 as u64) << 56),
        ;
        assert(b@ =~= u64_le(v));
    }
    Some(v)
}

} // verus!
