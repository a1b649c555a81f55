//! The frame of a block-resident record: two 64-bit header fields and a
//! length-prefixed payload, all little-endian and fixed-width.

use vstd::prelude::*;
use vstd::bytes::{
    lemma_auto_spec_u64_to_from_le_bytes, spec_u64_from_le_bytes, spec_u64_to_le_bytes,
};
use crate::error::FSError;
use crate::virtual_file_sys::block::BLOCK_SIZE;

verus! {

/// Bytes that the two header fields and the length prefix take.
pub const RECORD_HEADER_SIZE: usize = 24;

/// `bincode::ErrorKind`, what the calls into bincode fail with. Nothing is
/// known of a value of it; it is carried to where the failure becomes a
/// `SerializeError`.
#[verifier::external_type_specification]
#[verifier::external_body]
pub struct ExErrorKind(bincode::ErrorKind);

/// The bytes of a record: `first`, `second` and the payload's length, eight
/// bytes each and least significant byte first, then the payload itself.
pub open spec fn record_bytes(first: u64, second: u64, payload: Seq<u8>) -> Seq<u8> {
    spec_u64_to_le_bytes(first) + spec_u64_to_le_bytes(second) + spec_u64_to_le_bytes(
        payload.len() as u64,
    ) + payload
}

/// The first header field of the record that `bytes` starts with.
pub open spec fn record_first(bytes: Seq<u8>) -> u64 {
    spec_u64_from_le_bytes(bytes.subrange(0, 8))
}

/// The second header field of the record that `bytes` starts with.
pub open spec fn record_second(bytes: Seq<u8>) -> u64 {
    spec_u64_from_le_bytes(bytes.subrange(8, 16))
}

/// The payload length that the record's prefix announces.
pub open spec fn record_len(bytes: Seq<u8>) -> u64 {
    spec_u64_from_le_bytes(bytes.subrange(16, 24))
}

/// Whether `bytes` starts with a whole record: the header is there and so are
/// as many payload bytes as it announces. What follows the record is ignored.
pub open spec fn record_decodable(bytes: Seq<u8>) -> bool {
    &&& bytes.len() >= RECORD_HEADER_SIZE
    &&& record_len(bytes) <= bytes.len() - RECORD_HEADER_SIZE
}

/// The payload of the record that `bytes` starts with.
pub open spec fn record_payload(bytes: Seq<u8>) -> Seq<u8> {
    bytes.subrange(RECORD_HEADER_SIZE as int, RECORD_HEADER_SIZE + record_len(bytes))
}

/// `bytes` right-padded with zero bytes to one block.
pub open spec fn padded(bytes: Seq<u8>) -> Seq<u8> {
    bytes + Seq::new((BLOCK_SIZE - bytes.len()) as nat, |i: int| 0u8)
}

/// `bincode::serialize` on a triple of two `u64` and a byte vector. With the
/// crate's default options for this function (fixed-width little-endian
/// integers, no size limit) it writes the two integers, the vector's length as
/// a `u64` and then the vector's bytes, into a fresh `Vec`; neither the size
/// count nor the write into the `Vec` has a failing path for these types.
#[verifier::external_body]
fn serialize_record(record: &(u64, u64, Vec<u8>)) -> (r: Result<Vec<u8>, Box<bincode::ErrorKind>>)
    ensures
        r is Ok,
        r matches Ok(bytes) ==> bytes@ == record_bytes(record.0, record.1, record.2@),
{
    bincode::serialize(record)
}

/// `bincode::deserialize` to a triple of two `u64` and a byte vector. It reads
/// the two integers and the length prefix, then that many bytes, and fails
/// when the input ends before that; bytes after the record are allowed.
#[verifier::external_body]
fn deserialize_record(bytes: &[u8]) -> (r: Result<(u64, u64, Vec<u8>), Box<bincode::ErrorKind>>)
    ensures
        r is Ok <==> record_decodable(bytes@),
        r matches Ok(record) ==> {
            &&& record.0 == record_first(bytes@)
            &&& record.1 == record_second(bytes@)
            &&& record.2@ == record_payload(bytes@)
        },
{
    bincode::deserialize(bytes)
}

/// Encoding and decoding are inverse: the bytes of a record, whatever follows
/// them, decode to the fields they were made from.
pub proof fn lemma_record_round_trip(first: u64, second: u64, payload: Seq<u8>, rest: Seq<u8>)
    requires
        payload.len() <= u64::MAX,
    ensures
        record_bytes(first, second, payload).len() == RECORD_HEADER_SIZE + payload.len(),
        record_decodable(record_bytes(first, second, payload) + rest),
        record_first(record_bytes(first, second, payload) + rest) == first,
        record_second(record_bytes(first, second, payload) + rest) == second,
        record_payload(record_bytes(first, second, payload) + rest) == payload,
{
    lemma_auto_spec_u64_to_from_le_bytes();
    let bytes = record_bytes(first, second, payload) + rest;
    assert(bytes.subrange(0, 8) =~= spec_u64_to_le_bytes(first));
    assert(bytes.subrange(8, 16) =~= spec_u64_to_le_bytes(second));
    assert(bytes.subrange(16, 24) =~= spec_u64_to_le_bytes(payload.len() as u64));
    assert(bytes.subrange(24, 24 + payload.len() as int) =~= payload);
}

/// Frames `first`, `second` and `payload` as one record.
pub fn encode_record(first: u64, second: u64, payload: Vec<u8>) -> (r: Result<Vec<u8>, FSError>)
    ensures
        r matches Ok(bytes) && bytes@ == record_bytes(first, second, payload@),
{
    let record = (first, second, payload);
    match serialize_record(&record) {
        Ok(bytes) => Ok(bytes),
        Err(_) => Err(FSError::SerializeError),
    }
}

/// Reads the record that `bytes` starts with. Fails with `SerializeError`
/// exactly when `bytes` does not start with a whole record.
pub fn decode_record(bytes: &[u8]) -> (r: Result<(u64, u64, Vec<u8>), FSError>)
    ensures
        match r {
            Ok(record) => {
                &&& record_decodable(bytes@)
                &&& record.0 == record_first(bytes@)
                &&& record.1 == record_second(bytes@)
                &&& record.2@ == record_payload(bytes@)
            },
            Err(e) => e == FSError::SerializeError && !record_decodable(bytes@),
        },
{
    match deserialize_record(bytes) {
        Ok(record) => Ok(record),
        Err(_) => Err(FSError::SerializeError),
    }
}

/// Right-pads `bytes` with zeros to one block. Fails with `BlockError`
/// exactly when `bytes` is longer than a block.
pub fn pad_block(bytes: Vec<u8>) -> (r: Result<Vec<u8>, FSError>)
    ensures
        match r {
            Ok(block) => bytes@.len() <= BLOCK_SIZE && block@ == padded(bytes@),
            Err(e) => e == FSError::BlockError && bytes@.len() > BLOCK_SIZE,
        },
{
    if bytes.len() > BLOCK_SIZE {
        return Err(FSError::BlockError);
    }
    let mut block = bytes;
    while block.len() < BLOCK_SIZE
        invariant
            bytes@.len() <= block@.len() <= BLOCK_SIZE,
            block@.subrange(0, bytes@.len() as int) == bytes@,
            forall|i: int| bytes@.len() <= i < block@.len() ==> block@[i] == 0u8,
        decreases BLOCK_SIZE - block.len(),
    {
        block.push(0u8);
        assert(block@.subrange(0, bytes@.len() as int) =~= bytes@);
    }
    assert(block@ =~= padded(bytes@));
    Ok(block)
}

} // verus!
