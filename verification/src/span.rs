//! Byte sequences as a model of streams: spans, and writes at a position.

use vstd::prelude::*;

verus! {

/// A read of `count` bytes at `pos` stays inside a stream of `len` bytes.
/// Reading nothing succeeds anywhere.
pub open spec fn readable(len: nat, pos: nat, count: nat) -> bool {
    count == 0 || pos + count <= len
}

/// A write of `count` bytes at `pos` ends within `capacity`.
/// Writing nothing succeeds anywhere.
pub open spec fn fits(capacity: nat, pos: nat, count: nat) -> bool {
    count == 0 || pos + count <= capacity
}

/// The `count` bytes of `bytes` that start at `pos`.
pub open spec fn span(bytes: Seq<u8>, pos: nat, count: nat) -> Seq<u8> {
    Seq::new(count, |i: int| bytes[pos + i])
}

/// `count` zero bytes.
pub open spec fn zeros(count: nat) -> Seq<u8> {
    Seq::new(count, |i: int| 0u8)
}

/// What a stream holds after `data` is written at `pos`: the bytes under
/// the write are replaced, a gap between the old end and `pos` reads as
/// zeros, and everything else stays.
pub open spec fn write_at(bytes: Seq<u8>, pos: nat, data: Seq<u8>) -> Seq<u8> {
    if data.len() == 0 {
        bytes
    } else {
        Seq::new(
            if bytes.len() >= pos + data.len() {
                bytes.len()
            } else {
                pos + data.len()
            },
            |i: int|
                if pos <= i < pos + data.len() {
                    data[i - pos]
                } else if i < bytes.len() {
                    bytes[i]
                } else {
                    0u8
                },
        )
    }
}

/// Two spans that follow each other make one.
pub proof fn lemma_span_concat(bytes: Seq<u8>, pos: nat, a: nat, b: nat)
    ensures
        span(bytes, pos, a) + span(bytes, pos + a, b) == span(bytes, pos, a + b),
{
    assert(span(bytes, pos, a) + span(bytes, pos + a, b) =~= span(bytes, pos, a + b));
}

/// A span inside a span is a part of it.
pub proof fn lemma_span_of_span(bytes: Seq<u8>, pos: nat, total: nat, at: nat, count: nat)
    requires
        at + count <= total,
    ensures
        span(bytes, pos + at, count) == span(bytes, pos, total).subrange(
            at as int,
            (at + count) as int,
        ),
{
    assert(span(bytes, pos + at, count) =~= span(bytes, pos, total).subrange(
        at as int,
        (at + count) as int,
    ));
}

/// Two writes that follow each other are one write of both pieces.
pub proof fn lemma_write_at_concat(bytes: Seq<u8>, pos: nat, a: Seq<u8>, b: Seq<u8>)
    ensures
        write_at(write_at(bytes, pos, a), pos + a.len(), b) == write_at(bytes, pos, a + b),
{
    if a.len() == 0 {
        assert(a + b =~= b);
    } else if b.len() == 0 {
        assert(a + b =~= a);
    } else {
        assert(write_at(write_at(bytes, pos, a), pos + a.len(), b) =~= write_at(bytes, pos, a + b));
    }
}

/// Writing into the middle of bytes just written replaces that part of
/// them and nothing else.
pub proof fn lemma_write_at_patch(bytes: Seq<u8>, pos: nat, data: Seq<u8>, at: nat, patch: Seq<u8>)
    requires
        at + patch.len() <= data.len(),
    ensures
        write_at(write_at(bytes, pos, data), pos + at, patch) == write_at(
            bytes,
            pos,
            data.subrange(0, at as int) + patch + data.subrange(
                (at + patch.len()) as int,
                data.len() as int,
            ),
        ),
{
    let patched = data.subrange(0, at as int) + patch + data.subrange(
        (at + patch.len()) as int,
        data.len() as int,
    );
    if patch.len() == 0 {
        assert(patched =~= data);
    } else {
        assert(write_at(write_at(bytes, pos, data), pos + at, patch) =~= write_at(
            bytes,
            pos,
            patched,
        ));
    }
}

} // verus!
