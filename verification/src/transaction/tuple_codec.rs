use vstd::bytes::*;
use vstd::prelude::*;
use vstd::slice::*;

use super::version::TupleView;
use super::{TransactionId, TupleVersion};

verus! {

/// Bytes of the tuple header: creator, encoded deleter and payload length.
pub const TUPLE_HEADER_SIZE: usize = 20;

/// Errors of tuple decoding.
#[derive(Debug, Clone, Copy, PartialEq, Eq, Structural)]
pub enum TupleCodecError {
    /// Fewer bytes than a tuple header.
    Truncated,
    /// The payload length in the header disagrees with the bytes given.
    InvalidPayloadLength,
}

/// The stored form of a deleter: zero for none, else the identifier plus one.
/// The identifier `u64::MAX` has no stored form and is stored as none.
pub open spec fn xmax_code(xmax: Option<TransactionId>) -> u64 {
    match xmax {
        Some(x) => if x < u64::MAX {
            (x + 1) as u64
        } else {
            0
        },
        None => 0,
    }
}

/// The stored bytes of a tuple version: creator, encoded deleter and payload
/// length (modulo 2^32), all little endian, then the payload.
pub open spec fn encode_spec(v: TupleView) -> Seq<u8> {
    spec_u64_to_le_bytes(v.xmin) + spec_u64_to_le_bytes(xmax_code(v.xmax)) + spec_u32_to_le_bytes(
        (v.payload.len() % 0x1_0000_0000) as u32,
    ) + v.payload
}

/// The tuple version that `b` stores, or why it stores none.
pub open spec fn decode_spec(b: Seq<u8>) -> Result<TupleView, TupleCodecError> {
    if b.len() < TUPLE_HEADER_SIZE {
        Err(TupleCodecError::Truncated)
    } else if TUPLE_HEADER_SIZE + spec_u32_from_le_bytes(b.subrange(16, 20)) != b.len() {
        Err(TupleCodecError::InvalidPayloadLength)
    } else {
        let code = spec_u64_from_le_bytes(b.subrange(8, 16));
        Ok(
            TupleView {
                xmin: spec_u64_from_le_bytes(b.subrange(0, 8)),
                xmax: if code == 0 {
                    None
                } else {
                    Some((code - 1) as u64)
                },
                payload: b.subrange(TUPLE_HEADER_SIZE as int, b.len() as int),
            },
        )
    }
}

/// Encodes a tuple version for storage in a slotted page.
pub fn encode_tuple(version: &TupleVersion) -> (bytes: Vec<u8>)
    ensures
        bytes@ == encode_spec(version@),
{
    let payload = version.payload();
    let xmax_encoded: u64 = match version.xmax() {
        Some(x) => if x < u64::MAX {
            x + 1
        } else {
            0
        },
        None => 0,
    };
    let payload_len: u32 = ((payload.len() as u64) % 0x1_0000_0000u64) as u32;
    let mut bytes = u64_to_le_bytes(version.xmin());
    let mut xmax_bytes = u64_to_le_bytes(xmax_encoded);
    bytes.append(&mut xmax_bytes);
    let mut len_bytes = u32_to_le_bytes(payload_len);
    bytes.append(&mut len_bytes);
    let ghost before = bytes@;
    bytes.extend_from_slice(payload);
    assert(bytes@ =~= before + payload@);
    bytes
}

/// Decodes a stored tuple version.
pub fn decode_tuple(bytes: &[u8]) -> (result: Result<TupleVersion, TupleCodecError>)
    ensures
        match (result, decode_spec(bytes@)) {
            (Ok(v), Ok(w)) => v@ == w,
            (Err(e), Err(f)) => e == f,
            _ => false,
        },
{
    if bytes.len() < TUPLE_HEADER_SIZE {
        return Err(TupleCodecError::Truncated);
    }
    let xmin = u64_from_le_bytes(slice_subrange(bytes, 0, 8));
    let code = u64_from_le_bytes(slice_subrange(bytes, 8, 16));
    let payload_len = u32_from_le_bytes(slice_subrange(bytes, 16, 20));
    if (payload_len as u64) + (TUPLE_HEADER_SIZE as u64) != bytes.len() as u64 {
        return Err(TupleCodecError::InvalidPayloadLength);
    }
    let xmax = if code == 0 {
        None
    } else {
        Some(code - 1)
    };
    let payload = slice_to_vec(slice_subrange(bytes, TUPLE_HEADER_SIZE, bytes.len()));
    Ok(TupleVersion::from_parts(xmin, xmax, payload))
}

/// Decoding a stored tuple version gives the version back, for every version
/// whose payload length fits the 32-bit length field and whose deleter is not
/// `u64::MAX`.
pub proof fn lemma_tuple_round_trip(v: TupleView)
    requires
        v.payload.len() <= u32::MAX,
        v.xmax != Some(u64::MAX),
    ensures
        decode_spec(encode_spec(v)) == Ok::<TupleView, TupleCodecError>(v),
{
    lemma_auto_spec_u64_to_from_le_bytes();
    lemma_auto_spec_u32_to_from_le_bytes();
    let b = encode_spec(v);
    let a0 = spec_u64_to_le_bytes(v.xmin);
    let a1 = spec_u64_to_le_bytes(xmax_code(v.xmax));
    let a2 = spec_u32_to_le_bytes((v.payload.len() % 0x1_0000_0000) as u32);
    assert(b.subrange(0, 8) =~= a0);
    assert(b.subrange(8, 16) =~= a1);
    assert(b.subrange(16, 20) =~= a2);
    assert(b.subrange(20, b.len() as int) =~= v.payload);
    assert((v.payload.len() % 0x1_0000_0000) as u32 == v.payload.len());
}

} // verus!
