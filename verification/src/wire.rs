//! The bytes a message travels as: bincode's encoding of its fields.
use vstd::prelude::*;

use vstd::utf8::{decode_utf8, encode_utf8, encode_utf8_decode_utf8, encode_utf8_valid_utf8, valid_utf8};

use crate::broker::ring_buffer::{
    lemma_u32_le_roundtrip, lemma_u64_le_roundtrip, u32_from_le, u32_le, u64_from_le, u64_le,
};
use crate::error::{Error, ErrorView, Result};
use crate::{Message, Timestamp, Topic};

verus! {

/// `bincode::ErrorKind`, the error of bincode's `serialize` and
/// `deserialize`; the library never looks inside it.
#[verifier::external_type_specification]
#[verifier::external_body]
pub struct ExBincodeErrorKind(bincode::ErrorKind);

/// The bytes a message travels as: the topic name's UTF-8 length as a
/// little-endian `u64`, its UTF-8 bytes, the payload's length as a `u64`,
/// the payload, then the seconds (`u64`) and nanoseconds (`u32`) since the
/// UNIX epoch, all little-endian.
#[verifier::opaque]
pub open spec fn wire_bytes(name: Seq<char>, payload: Seq<u8>, secs: u64, nanos: u32) -> Seq<u8> {
    let text = encode_utf8(name);
    u64_le(text.len() as u64) + text + u64_le(payload.len() as u64) + payload + u64_le(secs)
        + u32_le(nanos)
}

/// The topic name, payload, seconds and nanoseconds that `bytes` open with,
/// read as `wire_bytes` lays them out, or `None` where `bytes` end too soon,
/// a length does not fit in a `usize`, or the name is not valid UTF-8. Bytes
/// after the nanoseconds are ignored.
#[verifier::opaque]
pub open spec fn wire_fields(bytes: Seq<u8>) -> Option<(Seq<char>, Seq<u8>, u64, u32)> {
    if bytes.len() < 8 {
        None
    } else {
        let n = u64_from_le(bytes) as int;
        if n > usize::MAX || bytes.len() < 16 + n {
            None
        } else if !valid_utf8(bytes.subrange(8, 8 + n)) {
            None
        } else {
            let m = u64_from_le(bytes.subrange(8 + n, 16 + n)) as int;
            if m > usize::MAX || bytes.len() < 28 + n + m {
                None
            } else {
                Some(
                    (
                        decode_utf8(bytes.subrange(8, 8 + n)),
                        bytes.subrange(16 + n, 16 + n + m),
                        u64_from_le(bytes.subrange(16 + n + m, 24 + n + m)),
                        u32_from_le(bytes.subrange(24 + n + m, 28 + n + m)),
                    ),
                )
            }
        }
    }
}

/// A message's bytes are 28 more than its name's UTF-8 bytes and its
/// payload.
pub proof fn lemma_wire_len(name: Seq<char>, payload: Seq<u8>, secs: u64, nanos: u32)
    ensures
        wire_bytes(name, payload, secs, nanos).len() == 28 + encode_utf8(name).len() + payload.len(),
{
    reveal(wire_bytes);
}

/// The fields a message decodes to: those `wire_fields` reads, with the
/// timestamp's nanoseconds of a billion or more carried into the seconds,
/// or `None` where `wire_fields` reads none or the carry overflows the
/// seconds.
pub open spec fn decoded_fields(bytes: Seq<u8>) -> Option<(Seq<char>, Seq<u8>, u64, u32)> {
    match wire_fields(bytes) {
        None => None,
        Some((name, payload, secs, nanos)) => {
            let carry = nanos / 1_000_000_000;
            if secs + carry > u64::MAX {
                None
            } else {
                Some((name, payload, (secs + carry) as u64, (nanos % 1_000_000_000) as u32))
            }
        },
    }
}

/// The text of the error decoding `bytes` gives where `decoded_fields`
/// reads none: bincode's, or, where bincode reads the fields but carrying
/// the nanoseconds overflows the seconds, the text serde gives for that.
pub open spec fn decode_error_text(bytes: Seq<u8>) -> Seq<char> {
    if wire_fields(bytes) is None {
        bincode_refusal_text(bytes)
    } else {
        "overflow deserializing SystemTime epoch offset"@
    }
}

/// A message's bytes decode to its fields where its nanoseconds are fewer
/// than a billion.
pub proof fn lemma_decode_roundtrip(name: Seq<char>, payload: Seq<u8>, secs: u64, nanos: u32)
    requires
        encode_utf8(name).len() <= usize::MAX,
        payload.len() <= usize::MAX,
        nanos < 1_000_000_000,
    ensures
        decoded_fields(wire_bytes(name, payload, secs, nanos)) == Some((name, payload, secs, nanos)),
{
    lemma_wire_roundtrip(name, payload, secs, nanos);
}

/// Reading the fields back from a message's bytes gives the fields it was
/// written from.
pub proof fn lemma_wire_roundtrip(name: Seq<char>, payload: Seq<u8>, secs: u64, nanos: u32)
    requires
        encode_utf8(name).len() <= usize::MAX,
        payload.len() <= usize::MAX,
    ensures
        wire_fields(wire_bytes(name, payload, secs, nanos)) == Some((name, payload, secs, nanos)),
{
    reveal(wire_bytes);
    reveal(wire_fields);
    let text = encode_utf8(name);
    let n = text.len() as int;
    let m = payload.len() as int;
    let bytes = wire_bytes(name, payload, secs, nanos);
    lemma_u64_le_roundtrip(text.len() as u64);
    lemma_u64_le_roundtrip(payload.len() as u64);
    lemma_u64_le_roundtrip(secs);
    lemma_u32_le_roundtrip(nanos);
    encode_utf8_valid_utf8(name);
    encode_utf8_decode_utf8(name);
    assert(bytes.len() == 28 + n + m);
    assert(bytes.subrange(0, 8) =~= u64_le(text.len() as u64));
    assert(bytes.subrange(8, 8 + n) =~= text);
    assert(bytes.subrange(8 + n, 16 + n) =~= u64_le(payload.len() as u64));
    assert(bytes.subrange(16 + n, 16 + n + m) =~= payload);
    assert(bytes.subrange(16 + n + m, 24 + n + m) =~= u64_le(secs));
    assert(bytes.subrange(24 + n + m, 28 + n + m) =~= u32_le(nanos));
    assert(u64_from_le(bytes) == u64_from_le(bytes.subrange(0, 8)));
}

/// `bincode::serialize` of the tuple (name, payload, (secs, nanos)). With
/// bincode's default options (fixed-width little-endian integers, lengths
/// as `u64`) its bytes are `wire_bytes` of the fields. It succeeds: under
/// those options the size count has no limit, writing into a `Vec` does not
/// fail, and a string, a slice (whose length serde passes on), integers and
/// tuples have no other way to fail.
#[verifier::external_body]
fn bincode_serialize_message(name: &str, payload: &[u8], secs: u64, nanos: u32) -> (res:
    core::result::Result<Vec<u8>, Box<bincode::ErrorKind>>)
    ensures
        res is Ok,
        match res {
            Ok(bytes) => bytes@ == wire_bytes(name@, payload@, secs, nanos),
            Err(_) => true,
        },
{
    bincode::serialize(&(name, payload, (secs, nanos)))
}

/// The text (`Display`) of the error `bincode::deserialize` gives for
/// `bytes` where it reads no message from them. It depends on the bytes
/// alone: the error is fixed by where the bytes end too soon, which length
/// does not fit, or where the name stops being UTF-8.
pub uninterp spec fn bincode_refusal_text(bytes: Seq<u8>) -> Seq<char>;

/// `bincode::deserialize` of a (name, payload, (secs, nanos)) tuple with
/// bincode's default options: the fields `wire_fields` reads, or, exactly
/// where it reads none (bytes too short, a length over `usize`, a name that
/// is not UTF-8; trailing bytes are allowed), the text of its error.
#[verifier::external_body]
fn bincode_deserialize_message(bytes: &[u8]) -> (res: core::result::Result<
    (String, Vec<u8>, u64, u32),
    String,
>)
    ensures
        match res {
            Ok((name, payload, secs, nanos)) => wire_fields(bytes@) == Some(
                (name@, payload@, secs, nanos),
            ),
            Err(text) => wire_fields(bytes@) is None && text@ == bincode_refusal_text(bytes@),
        },
{
    match bincode::deserialize::<(String, Vec<u8>, (u64, u32))>(bytes) {
        Ok((name, payload, (secs, nanos))) => Ok((name, payload, secs, nanos)),
        Err(e) => Err(e.to_string()),
    }
}

/// The `Display` text of a bincode error. It depends on the error only;
/// nothing is promised of it.
#[verifier::external_body]
fn bincode_error_text(e: &bincode::ErrorKind) -> String {
    e.to_string()
}

/// The text serde gives for a time earlier than the UNIX epoch.
pub open spec fn before_epoch_text() -> Seq<char> {
    "SystemTime must be later than UNIX_EPOCH"@
}

/// Encodes a message for the ring. A message without a timestamp (the clock
/// read earlier than the UNIX epoch) cannot be encoded; otherwise the bytes
/// are bincode's encoding of its topic name, payload and timestamp, from
/// which decoding gives those fields back.
pub fn encode_message(message: &Message) -> (res: Result<Vec<u8>>)
    ensures
        match message.timestamp {
            None => res matches Err(e) && e@ == ErrorView::SerializationError(before_epoch_text()),
            Some(t) => res matches Ok(bytes) && {
                &&& bytes@ == wire_bytes(
                    message.topic@,
                    message.payload@,
                    t.secs_since_epoch,
                    t.nanos_since_epoch,
                )
                &&& bytes@.len() == 28 + encode_utf8(message.topic@).len() + message.payload@.len()
                &&& wire_fields(bytes@) == Some(
                    (message.topic@, message.payload@, t.secs_since_epoch, t.nanos_since_epoch),
                )
            },
        },
{
    match message.timestamp {
        None => Err(Error::SerializationError("SystemTime must be later than UNIX_EPOCH".to_string())),
        Some(t) => match bincode_serialize_message(
            message.topic.name(),
            message.payload.as_slice(),
            t.secs_since_epoch,
            t.nanos_since_epoch,
        ) {
            Ok(bytes) => {
                proof {
                    lemma_wire_len(
                        message.topic@,
                        message.payload@,
                        t.secs_since_epoch,
                        t.nanos_since_epoch,
                    );
                    assert(bytes@.len() == bytes.len());
                    lemma_wire_roundtrip(
                        message.topic@,
                        message.payload@,
                        t.secs_since_epoch,
                        t.nanos_since_epoch,
                    );
                }
                Ok(bytes)
            },
            Err(e) => Err(Error::SerializationError(bincode_error_text(&e))),
        },
    }
}

/// Decodes a message read off the ring: the fields bincode reads, with
/// the nanoseconds normalised as `decoded_fields` says, or
/// `DeserializationError` where bincode refuses the bytes or the carry of
/// the nanoseconds overflows the seconds.
pub fn decode_message(bytes: &[u8]) -> (res: Result<Message>)
    ensures
        match res {
            Ok(m) => m.timestamp matches Some(t) && decoded_fields(bytes@) == Some(
                (m.topic@, m.payload@, t.secs_since_epoch, t.nanos_since_epoch),
            ),
            Err(e) => {
                &&& decoded_fields(bytes@) is None
                &&& e@ == ErrorView::DeserializationError(decode_error_text(bytes@))
            },
        },
{
    match bincode_deserialize_message(bytes) {
        Ok((name, payload, secs, nanos)) => {
            let carry = (nanos / 1_000_000_000) as u64;
            if secs > u64::MAX - carry {
                return Err(
                    Error::DeserializationError("overflow deserializing SystemTime epoch offset".to_string()),
                );
            }
            Ok(
                Message {
                    topic: Topic::from_string(name),
                    payload,
                    timestamp: Some(
                        Timestamp { secs_since_epoch: secs + carry, nanos_since_epoch: nanos % 1_000_000_000 },
                    ),
                },
            )
        },
        Err(text) => Err(Error::DeserializationError(text)),
    }
}

} // verus!
