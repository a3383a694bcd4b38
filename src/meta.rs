//! Framing of the public metadata at the head of a sealed vault: a 4-byte
//! big-endian length, then that many bytes of serialized `PublicInfo`.
use vstd::prelude::*;

use crate::bytes::sub_bytes;
use crate::error::{make_error, AppResult};

verus! {

/// The big-endian bytes of `n`.
pub open spec fn be32(n: u32) -> Seq<u8> {
    seq![(n >> 24u32) as u8, (n >> 16u32) as u8, (n >> 8u32) as u8, n as u8]
}

/// The number whose big-endian bytes are `a, b, c, d`.
pub open spec fn be32_value(a: u8, b: u8, c: u8, d: u8) -> u32 {
    ((a as u32) << 24u32) | ((b as u32) << 16u32) | ((c as u32) << 8u32) | (d as u32)
}

/// The length prefix followed by the metadata bytes.
pub open spec fn framed(meta: Seq<u8>) -> Seq<u8> {
    be32(meta.len() as u32) + meta
}

/// The metadata length that a container's first four bytes announce.
pub open spec fn announced_len(data: Seq<u8>) -> nat {
    be32_value(data[0], data[1], data[2], data[3]) as nat
}

/// Splits a container into its metadata bytes and the rest, if the container
/// holds the whole metadata that its prefix announces.
pub open spec fn unframe(data: Seq<u8>) -> Option<(Seq<u8>, Seq<u8>)> {
    if data.len() < 4 || data.len() < 4 + announced_len(data) {
        None
    } else {
        let end = 4 + announced_len(data);
        Some((data.subrange(4, end as int), data.subrange(end as int, data.len() as int)))
    }
}

proof fn lemma_be32_round_trip(n: u32)
    ensures
        be32_value((n >> 24u32) as u8, (n >> 16u32) as u8, (n >> 8u32) as u8, n as u8) == n,
{
    assert(((((n >> 24u32) as u8) as u32) << 24u32) | ((((n >> 16u32) as u8) as u32) << 16u32) | ((((
    n >> 8u32) as u8) as u32) << 8u32) | ((n as u8) as u32) == n) by (bit_vector);
}

/// Unframing what was framed gives back the metadata bytes and whatever
/// followed them.
pub proof fn lemma_unframe_framed(meta: Seq<u8>, rest: Seq<u8>)
    requires
        meta.len() <= u32::MAX,
    ensures
        unframe(framed(meta) + rest) == Some((meta, rest)),
{
    let data = framed(meta) + rest;
    lemma_be32_round_trip(meta.len() as u32);
    assert(announced_len(data) == meta.len());
    assert(data.subrange(4, 4 + meta.len() as int) =~= meta);
    assert(data.subrange(4 + meta.len() as int, data.len() as int) =~= rest);
}

/// Appends the framed metadata to `writer` and returns the metadata bytes,
/// which are the associated data that the vault's ciphertext authenticates.
pub fn encode_meta(writer: &mut Vec<u8>, meta_buffer: Vec<u8>) -> (r: Vec<u8>)
    requires
        meta_buffer@.len() <= u32::MAX,
    ensures
        final(writer)@ == old(writer)@ + framed(meta_buffer@),
        r@ == meta_buffer@,
{
    let len = meta_buffer.len() as u32;
    writer.push((len >> 24u32) as u8);
    writer.push((len >> 16u32) as u8);
    writer.push((len >> 8u32) as u8);
    writer.push(len as u8);
    let mut i: usize = 0;
    let ghost start = writer@;
    while i < meta_buffer.len()
        invariant
            i <= meta_buffer@.len(),
            writer@ == start + meta_buffer@.subrange(0, i as int),
        decreases meta_buffer@.len() - i,
    {
        writer.push(meta_buffer[i]);
        i = i + 1;
        assert(writer@ =~= start + meta_buffer@.subrange(0, i as int));
    }
    assert(meta_buffer@.subrange(0, i as int) =~= meta_buffer@);
    assert(start + meta_buffer@ =~= old(writer)@ + framed(meta_buffer@));
    meta_buffer
}

/// Reads the framed metadata at the head of a container: returns the
/// metadata bytes (the associated data for decryption) and the bytes after
/// them. A container too short for its prefix or metadata is an `io` error.
pub fn decode_meta(reader: &[u8]) -> (r: AppResult<(Vec<u8>, Vec<u8>)>)
    ensures
        match r {
            Ok((raw, rest)) => unframe(reader@) == Some((raw@, rest@)),
            Err(e) => unframe(reader@) is None && e.error_type@ == "io"@,
        },
{
    if reader.len() < 4 {
        return Err(make_error("io", "failed to fill whole buffer"));
    }
    let meta_len = be32_value_exec(reader[0], reader[1], reader[2], reader[3]) as usize;
    if reader.len() - 4 < meta_len {
        return Err(make_error("io", "failed to fill whole buffer"));
    }
    let raw = sub_bytes(reader, 4, 4 + meta_len);
    let rest = sub_bytes(reader, 4 + meta_len, reader.len());
    Ok((raw, rest))
}

fn be32_value_exec(a: u8, b: u8, c: u8, d: u8) -> (r: u32)
    ensures
        r == be32_value(a, b, c, d),
{
    ((a as u32) << 24u32) | ((b as u32) << 16u32) | ((c as u32) << 8u32) | (d as u32)
}

} // verus!
