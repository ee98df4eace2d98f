//! The stream that archives are read from and written to, and small helpers.

use crate::error::{eof, is_fault, FormatError, PakError, StreamError, UsageError};
use crate::span::{fits, lemma_span_concat, lemma_write_at_concat, readable, span, write_at};
use vstd::bytes::{
    spec_u128_from_le_bytes, spec_u128_to_le_bytes, spec_u16_from_le_bytes, spec_u16_to_le_bytes,
    spec_u32_from_le_bytes, spec_u32_to_le_bytes, spec_u64_from_le_bytes, spec_u64_to_le_bytes,
    u128_from_le_bytes, u128_to_le_bytes, u16_from_le_bytes, u16_to_le_bytes, u32_from_le_bytes,
    u32_to_le_bytes, u64_from_le_bytes, u64_to_le_bytes,
};
use vstd::prelude::*;
use vstd::utf8::{decode_utf8, encode_utf8, valid_utf8};

verus! {

/// The most bytes `copy_data` moves in one read and one write.
pub const COPY_CHUNK: usize = 0x40000;

/// The first four bytes of `bytes` packed into a word, first byte highest.
pub open spec fn packed_tag(bytes: Seq<u8>) -> u32 {
    ((bytes[0] as u32) << 24) | ((bytes[1] as u32) << 16) | ((bytes[2] as u32) << 8) | (
    bytes[3] as u32)
}

/// Packs the first four bytes of a tag such as `"RES1"` into a word, the
/// first byte in the highest place.
pub fn u32_from_str(input: &str) -> (r: u32)
    requires
        encode_utf8(input@).len() >= 4,
    ensures
        r == packed_tag(encode_utf8(input@)),
{
    let bytes = input.as_bytes();
    (bytes[0] as u32) << 24 | (bytes[1] as u32) << 16 | (bytes[2] as u32) << 8 | (bytes[3] as u32)
}

/// Where the first zero byte of `data` stands, or its length if it holds none.
pub open spec fn spec_string_length(data: Seq<u8>) -> nat
    decreases data.len(),
{
    if data.len() == 0 || data[0] == 0 {
        0
    } else {
        1 + spec_string_length(data.drop_first())
    }
}

/// `spec_string_length` is the one index below which no byte is zero and at
/// which the data ends or holds a zero.
pub proof fn lemma_string_length(data: Seq<u8>, n: nat)
    requires
        n <= data.len(),
        forall|i: int| 0 <= i < n ==> data[i] != 0,
        n == data.len() || data[n as int] == 0,
    ensures
        spec_string_length(data) == n,
    decreases data.len(),
{
    if n > 0 {
        lemma_string_length(data.drop_first(), (n - 1) as nat);
    }
}

/// The first zero byte, if any, stands inside the data.
pub proof fn lemma_string_length_bound(data: Seq<u8>)
    ensures
        spec_string_length(data) <= data.len(),
    decreases data.len(),
{
    if data.len() > 0 && data[0] != 0 {
        lemma_string_length_bound(data.drop_first());
    }
}

/// The length of a NUL-terminated string held in a fixed field: the index of
/// the first zero byte, or the field's length if there is none.
pub fn string_length(data: &[u8]) -> (r: usize)
    ensures
        r == spec_string_length(data@),
        r <= data@.len(),
        forall|i: int| 0 <= i < r ==> data@[i] != 0,
        r == data@.len() || data@[r as int] == 0,
{
    let mut offset: usize = 0;
    while offset < data.len()
        invariant
            offset <= data@.len(),
            forall|i: int| 0 <= i < offset ==> data@[i] != 0,
        decreases data@.len() - offset,
    {
        if data[offset] == 0 {
            proof {
                lemma_string_length(data@, offset as nat);
            }
            return offset;
        }
        offset += 1;
    }
    proof {
        lemma_string_length(data@, offset as nat);
    }
    offset
}

/// Whether two runs of bytes are the same.
pub fn same_bytes(a: &[u8], b: &[u8]) -> (r: bool)
    ensures
        r == (a@ == b@),
{
    if a.len() != b.len() {
        return false;
    }
    let mut i: usize = 0;
    while i < a.len()
        invariant
            i <= a@.len(),
            a@.len() == b@.len(),
            forall|k: int| 0 <= k < i ==> a@[k] == b@[k],
        decreases a@.len() - i,
    {
        if a[i] != b[i] {
            return false;
        }
        i += 1;
    }
    assert(a@ =~= b@);
    true
}

/// Whether two texts are the same.
pub fn same_text(a: &str, b: &str) -> (r: bool)
    ensures
        r == (a@ == b@),
{
    proof {
        vstd::utf8::encode_utf8_decode_utf8(a@);
        vstd::utf8::encode_utf8_decode_utf8(b@);
    }
    same_bytes(a.as_bytes(), b.as_bytes())
}

/// When a read of `count` bytes may end in `e`: at the end of the stream,
/// or with a fault of an unreliable medium.
pub open spec fn read_failure(len: nat, pos: nat, count: nat, reliable: bool, e: PakError) -> bool {
    (e == eof() && !readable(len, pos, count)) || is_fault(reliable, e)
}

/// When a write of `count` bytes may end in `e`: beyond the capacity, or
/// with a fault of an unreliable medium.
pub open spec fn write_failure(
    capacity: nat,
    pos: nat,
    count: nat,
    reliable: bool,
    e: PakError,
) -> bool {
    (e == PakError::Io(StreamError::OutOfRange) && !fits(capacity, pos, count)) || is_fault(
        reliable,
        e,
    )
}

/// A length-prefixed string at `pos`: a 32-bit byte count, then that many
/// bytes of UTF-8. Gives the text and the position after it.
pub open spec fn parse_string(bytes: Seq<u8>, pos: nat) -> Result<(Seq<char>, nat), PakError> {
    if pos + 4 > bytes.len() {
        Err(eof())
    } else {
        let count = spec_u32_from_le_bytes(span(bytes, pos, 4)) as nat;
        if !readable(bytes.len(), pos + 4, count) {
            Err(eof())
        } else if !valid_utf8(span(bytes, pos + 4, count)) {
            Err(PakError::Format(FormatError::BadName))
        } else {
            Ok((decode_utf8(span(bytes, pos + 4, count)), pos + 4 + count))
        }
    }
}

/// The bytes of a length-prefixed string.
pub open spec fn string_bytes(text: Seq<char>) -> Seq<u8> {
    spec_u32_to_le_bytes(encode_utf8(text).len() as u32) + encode_utf8(text)
}

/// `String::from_utf8` of std: the bytes become a `String` exactly when they
/// are valid UTF-8, and the string then encodes to those same bytes.
#[verifier::external_body]
fn string_from_utf8(bytes: Vec<u8>) -> (r: Option<String>)
    ensures
        r is Some <==> valid_utf8(bytes@),
        r matches Some(s) ==> encode_utf8(s@) == bytes@,
{
    String::from_utf8(bytes).ok()
}

/// Turns bytes into text: `Some` exactly for valid UTF-8, holding the
/// decoded characters.
pub fn decode_text(bytes: Vec<u8>) -> (r: Option<String>)
    ensures
        r is Some <==> valid_utf8(bytes@),
        r matches Some(s) ==> s@ == decode_utf8(bytes@) && encode_utf8(s@) == bytes@,
{
    let r = string_from_utf8(bytes);
    proof {
        if r is Some {
            vstd::utf8::encode_utf8_decode_utf8(r->0@);
        }
    }
    r
}

/// A seekable stream of bytes with a cursor.
///
/// The model is the bytes held, the cursor, the greatest length the medium
/// can hold and whether the medium is reliable. A reliable stream fails only
/// for the reason its arguments give: a read that passes the end, a write
/// that passes the capacity. An unreliable one may report
/// `StreamError::Fault` at any call.
pub trait BinaryStream: Sized {
    /// The bytes the stream holds.
    spec fn contents(&self) -> Seq<u8>;

    /// Where the next read or write starts.
    spec fn cursor(&self) -> nat;

    /// The greatest length the stream can grow to.
    spec fn capacity(&self) -> nat;

    /// Whether the medium never faults.
    spec fn reliable(&self) -> bool;

    /// Fills `buf` from the cursor on.
    fn read_bytes(&mut self, buf: &mut [u8]) -> (r: Result<(), PakError>)
        ensures
            final(self).contents() == old(self).contents(),
            final(self).capacity() == old(self).capacity(),
            final(self).reliable() == old(self).reliable(),
            final(buf)@.len() == old(buf)@.len(),
            match r {
                Ok(()) => {
                    &&& readable(
                        old(self).contents().len(),
                        old(self).cursor(),
                        old(buf)@.len(),
                    )
                    &&& final(buf)@ == span(
                        old(self).contents(),
                        old(self).cursor(),
                        old(buf)@.len(),
                    )
                    &&& final(self).cursor() == old(self).cursor() + old(buf)@.len()
                },
                Err(e) => read_failure(
                    old(self).contents().len(),
                    old(self).cursor(),
                    old(buf)@.len(),
                    old(self).reliable(),
                    e,
                ),
            },
    ;

    /// Reads `count` bytes from the cursor on into a new vector. A read of
    /// more than `COPY_CHUNK` bytes that passes the end of the stream is
    /// refused before the vector is made.
    fn read_vector(&mut self, count: usize) -> (r: Result<Vec<u8>, PakError>)
        ensures
            final(self).contents() == old(self).contents(),
            final(self).capacity() == old(self).capacity(),
            final(self).reliable() == old(self).reliable(),
            match r {
                Ok(data) => {
                    &&& readable(old(self).contents().len(), old(self).cursor(), count as nat)
                    &&& data@ == span(old(self).contents(), old(self).cursor(), count as nat)
                    &&& final(self).cursor() == old(self).cursor() + count
                },
                Err(e) => read_failure(
                    old(self).contents().len(),
                    old(self).cursor(),
                    count as nat,
                    old(self).reliable(),
                    e,
                ),
            },
    {
        if count > COPY_CHUNK {
            // A long read is held against the stream's length before any
            // memory is set aside for it.
            let length = self.length()?;
            let position = self.position()?;
            if position > length || count as u64 > length - position {
                return Err(PakError::Io(StreamError::UnexpectedEof));
            }
        }
        let mut data: Vec<u8> = vec![0u8; count];
        match self.read_bytes(data.as_mut_slice()) {
            Ok(()) => Ok(data),
            Err(e) => Err(e),
        }
    }

    /// Writes `buf` at the cursor.
    fn write_bytes(&mut self, buf: &[u8]) -> (r: Result<(), PakError>)
        ensures
            final(self).capacity() == old(self).capacity(),
            final(self).reliable() == old(self).reliable(),
            match r {
                Ok(()) => {
                    &&& fits(old(self).capacity(), old(self).cursor(), buf@.len())
                    &&& final(self).contents() == write_at(
                        old(self).contents(),
                        old(self).cursor(),
                        buf@,
                    )
                    &&& final(self).cursor() == old(self).cursor() + buf@.len()
                },
                Err(e) => write_failure(
                    old(self).capacity(),
                    old(self).cursor(),
                    buf@.len(),
                    old(self).reliable(),
                    e,
                ),
            },
    ;

    /// Moves the cursor to `pos`, which may lie beyond the end.
    fn seek(&mut self, pos: u64) -> (r: Result<(), PakError>)
        ensures
            final(self).contents() == old(self).contents(),
            final(self).capacity() == old(self).capacity(),
            final(self).reliable() == old(self).reliable(),
            match r {
                Ok(()) => final(self).cursor() == pos,
                Err(e) => is_fault(old(self).reliable(), e),
            },
    ;

    /// The cursor.
    fn position(&mut self) -> (r: Result<u64, PakError>)
        ensures
            final(self).contents() == old(self).contents(),
            final(self).capacity() == old(self).capacity(),
            final(self).reliable() == old(self).reliable(),
            match r {
                Ok(pos) => pos == old(self).cursor() && final(self).cursor() == old(self).cursor(),
                Err(e) => is_fault(old(self).reliable(), e),
            },
    ;

    /// How many bytes the stream holds.
    fn length(&mut self) -> (r: Result<u64, PakError>)
        ensures
            final(self).contents() == old(self).contents(),
            final(self).capacity() == old(self).capacity(),
            final(self).reliable() == old(self).reliable(),
            match r {
                Ok(len) => len == old(self).contents().len() && final(self).cursor() == old(
                    self,
                ).cursor(),
                Err(e) => is_fault(old(self).reliable(), e),
            },
    ;

    /// Reads a little-endian 128-bit word.
    fn read_u128(&mut self) -> (r: Result<u128, PakError>)
        ensures
            final(self).contents() == old(self).contents(),
            final(self).capacity() == old(self).capacity(),
            final(self).reliable() == old(self).reliable(),
            match r {
                Ok(value) => {
                    &&& old(self).cursor() + 16 <= old(self).contents().len()
                    &&& value == spec_u128_from_le_bytes(
                        span(old(self).contents(), old(self).cursor(), 16),
                    )
                    &&& final(self).cursor() == old(self).cursor() + 16
                },
                Err(e) => read_failure(
                    old(self).contents().len(),
                    old(self).cursor(),
                    16,
                    old(self).reliable(),
                    e,
                ),
            },
    {
        let buffer = self.read_vector(16)?;
        Ok(u128_from_le_bytes(buffer.as_slice()))
    }

    /// Reads a little-endian 64-bit word.
    fn read_u64(&mut self) -> (r: Result<u64, PakError>)
        ensures
            final(self).contents() == old(self).contents(),
            final(self).capacity() == old(self).capacity(),
            final(self).reliable() == old(self).reliable(),
            match r {
                Ok(value) => {
                    &&& old(self).cursor() + 8 <= old(self).contents().len()
                    &&& value == spec_u64_from_le_bytes(
                        span(old(self).contents(), old(self).cursor(), 8),
                    )
                    &&& final(self).cursor() == old(self).cursor() + 8
                },
                Err(e) => read_failure(
                    old(self).contents().len(),
                    old(self).cursor(),
                    8,
                    old(self).reliable(),
                    e,
                ),
            },
    {
        let buffer = self.read_vector(8)?;
        Ok(u64_from_le_bytes(buffer.as_slice()))
    }

    /// Reads a little-endian 32-bit word.
    fn read_u32(&mut self) -> (r: Result<u32, PakError>)
        ensures
            final(self).contents() == old(self).contents(),
            final(self).capacity() == old(self).capacity(),
            final(self).reliable() == old(self).reliable(),
            match r {
                Ok(value) => {
                    &&& old(self).cursor() + 4 <= old(self).contents().len()
                    &&& value == spec_u32_from_le_bytes(
                        span(old(self).contents(), old(self).cursor(), 4),
                    )
                    &&& final(self).cursor() == old(self).cursor() + 4
                },
                Err(e) => read_failure(
                    old(self).contents().len(),
                    old(self).cursor(),
                    4,
                    old(self).reliable(),
                    e,
                ),
            },
    {
        let buffer = self.read_vector(4)?;
        Ok(u32_from_le_bytes(buffer.as_slice()))
    }

    /// Reads a little-endian 16-bit word.
    fn read_u16(&mut self) -> (r: Result<u16, PakError>)
        ensures
            final(self).contents() == old(self).contents(),
            final(self).capacity() == old(self).capacity(),
            final(self).reliable() == old(self).reliable(),
            match r {
                Ok(value) => {
                    &&& old(self).cursor() + 2 <= old(self).contents().len()
                    &&& value == spec_u16_from_le_bytes(
                        span(old(self).contents(), old(self).cursor(), 2),
                    )
                    &&& final(self).cursor() == old(self).cursor() + 2
                },
                Err(e) => read_failure(
                    old(self).contents().len(),
                    old(self).cursor(),
                    2,
                    old(self).reliable(),
                    e,
                ),
            },
    {
        let buffer = self.read_vector(2)?;
        Ok(u16_from_le_bytes(buffer.as_slice()))
    }

    /// Reads one byte.
    fn read_u8(&mut self) -> (r: Result<u8, PakError>)
        ensures
            final(self).contents() == old(self).contents(),
            final(self).capacity() == old(self).capacity(),
            final(self).reliable() == old(self).reliable(),
            match r {
                Ok(value) => {
                    &&& old(self).cursor() + 1 <= old(self).contents().len()
                    &&& value == old(self).contents()[old(self).cursor() as int]
                    &&& final(self).cursor() == old(self).cursor() + 1
                },
                Err(e) => read_failure(
                    old(self).contents().len(),
                    old(self).cursor(),
                    1,
                    old(self).reliable(),
                    e,
                ),
            },
    {
        let buffer = self.read_vector(1)?;
        Ok(buffer[0])
    }

    /// Reads a length-prefixed string: a 32-bit byte count, then that many
    /// bytes, which must be valid UTF-8.
    fn read_string(&mut self) -> (r: Result<String, PakError>)
        ensures
            final(self).contents() == old(self).contents(),
            final(self).capacity() == old(self).capacity(),
            final(self).reliable() == old(self).reliable(),
            match r {
                Ok(text) => parse_string(old(self).contents(), old(self).cursor()) == Ok::<
                    (Seq<char>, nat),
                    PakError,
                >((text@, final(self).cursor())),
                Err(e) => parse_string(old(self).contents(), old(self).cursor()) == Err::<
                    (Seq<char>, nat),
                    PakError,
                >(e) || is_fault(old(self).reliable(), e),
            },
    {
        let string_len = self.read_u32()? as usize;
        let data = self.read_vector(string_len)?;
        match decode_text(data) {
            Some(text) => Ok(text),
            None => Err(PakError::Format(FormatError::BadName)),
        }
    }

    /// Writes a little-endian 128-bit word.
    fn write_u128(&mut self, value: u128) -> (r: Result<(), PakError>)
        ensures
            final(self).capacity() == old(self).capacity(),
            final(self).reliable() == old(self).reliable(),
            match r {
                Ok(()) => {
                    &&& old(self).cursor() + 16 <= old(self).capacity()
                    &&& final(self).contents() == write_at(
                        old(self).contents(),
                        old(self).cursor(),
                        spec_u128_to_le_bytes(value),
                    )
                    &&& final(self).cursor() == old(self).cursor() + 16
                },
                Err(e) => write_failure(
                    old(self).capacity(),
                    old(self).cursor(),
                    16,
                    old(self).reliable(),
                    e,
                ),
            },
    {
        proof {
            vstd::bytes::lemma_auto_spec_u128_to_from_le_bytes();
        }
        let buffer = u128_to_le_bytes(value);
        self.write_bytes(buffer.as_slice())
    }

    /// Writes a little-endian 64-bit word.
    fn write_u64(&mut self, value: u64) -> (r: Result<(), PakError>)
        ensures
            final(self).capacity() == old(self).capacity(),
            final(self).reliable() == old(self).reliable(),
            match r {
                Ok(()) => {
                    &&& old(self).cursor() + 8 <= old(self).capacity()
                    &&& final(self).contents() == write_at(
                        old(self).contents(),
                        old(self).cursor(),
                        spec_u64_to_le_bytes(value),
                    )
                    &&& final(self).cursor() == old(self).cursor() + 8
                },
                Err(e) => write_failure(
                    old(self).capacity(),
                    old(self).cursor(),
                    8,
                    old(self).reliable(),
                    e,
                ),
            },
    {
        proof {
            vstd::bytes::lemma_auto_spec_u64_to_from_le_bytes();
        }
        let buffer = u64_to_le_bytes(value);
        self.write_bytes(buffer.as_slice())
    }

    /// Writes a little-endian 32-bit word.
    fn write_u32(&mut self, value: u32) -> (r: Result<(), PakError>)
        ensures
            final(self).capacity() == old(self).capacity(),
            final(self).reliable() == old(self).reliable(),
            match r {
                Ok(()) => {
                    &&& old(self).cursor() + 4 <= old(self).capacity()
                    &&& final(self).contents() == write_at(
                        old(self).contents(),
                        old(self).cursor(),
                        spec_u32_to_le_bytes(value),
                    )
                    &&& final(self).cursor() == old(self).cursor() + 4
                },
                Err(e) => write_failure(
                    old(self).capacity(),
                    old(self).cursor(),
                    4,
                    old(self).reliable(),
                    e,
                ),
            },
    {
        proof {
            vstd::bytes::lemma_auto_spec_u32_to_from_le_bytes();
        }
        let buffer = u32_to_le_bytes(value);
        self.write_bytes(buffer.as_slice())
    }

    /// Writes a little-endian 16-bit word.
    fn write_u16(&mut self, value: u16) -> (r: Result<(), PakError>)
        ensures
            final(self).capacity() == old(self).capacity(),
            final(self).reliable() == old(self).reliable(),
            match r {
                Ok(()) => {
                    &&& old(self).cursor() + 2 <= old(self).capacity()
                    &&& final(self).contents() == write_at(
                        old(self).contents(),
                        old(self).cursor(),
                        spec_u16_to_le_bytes(value),
                    )
                    &&& final(self).cursor() == old(self).cursor() + 2
                },
                Err(e) => write_failure(
                    old(self).capacity(),
                    old(self).cursor(),
                    2,
                    old(self).reliable(),
                    e,
                ),
            },
    {
        proof {
            vstd::bytes::lemma_auto_spec_u16_to_from_le_bytes();
        }
        let buffer = u16_to_le_bytes(value);
        self.write_bytes(buffer.as_slice())
    }

    /// Writes one byte.
    fn write_u8(&mut self, value: u8) -> (r: Result<(), PakError>)
        ensures
            final(self).capacity() == old(self).capacity(),
            final(self).reliable() == old(self).reliable(),
            match r {
                Ok(()) => {
                    &&& old(self).cursor() + 1 <= old(self).capacity()
                    &&& final(self).contents() == write_at(
                        old(self).contents(),
                        old(self).cursor(),
                        seq![value],
                    )
                    &&& final(self).cursor() == old(self).cursor() + 1
                },
                Err(e) => write_failure(
                    old(self).capacity(),
                    old(self).cursor(),
                    1,
                    old(self).reliable(),
                    e,
                ),
            },
    {
        let buffer: Vec<u8> = vec![value];
        self.write_bytes(buffer.as_slice())
    }

    /// Writes a length-prefixed string. A text of more than `u32::MAX`
    /// bytes is refused before anything is written.
    fn write_string(&mut self, value: &String) -> (r: Result<(), PakError>)
        ensures
            final(self).capacity() == old(self).capacity(),
            final(self).reliable() == old(self).reliable(),
            match r {
                Ok(()) => {
                    &&& encode_utf8(value@).len() <= u32::MAX
                    &&& old(self).cursor() + string_bytes(value@).len() <= old(self).capacity()
                    &&& final(self).contents() == write_at(
                        old(self).contents(),
                        old(self).cursor(),
                        string_bytes(value@),
                    )
                    &&& final(self).cursor() == old(self).cursor() + string_bytes(value@).len()
                },
                Err(e) => if encode_utf8(value@).len() > u32::MAX {
                    &&& e == PakError::Usage(UsageError::TooLarge)
                    &&& final(self).contents() == old(self).contents()
                    &&& final(self).cursor() == old(self).cursor()
                } else {
                    write_failure(
                        old(self).capacity(),
                        old(self).cursor(),
                        string_bytes(value@).len(),
                        old(self).reliable(),
                        e,
                    )
                },
            },
    {
        proof {
            vstd::bytes::lemma_auto_spec_u32_to_from_le_bytes();
        }
        let data = value.as_str().as_bytes();
        if data.len() > u32::MAX as usize {
            return Err(PakError::Usage(UsageError::TooLarge));
        }
        let ghost before = self.contents();
        let ghost start = self.cursor();
        self.write_u32(data.len() as u32)?;
        self.write_bytes(data)?;
        proof {
            lemma_write_at_concat(
                before,
                start,
                spec_u32_to_le_bytes(data@.len() as u32),
                data@,
            );
        }
        Ok(())
    }
}

/// `file` holds `sofar`, written from `start` on over `origin`, and its
/// cursor stands just behind those bytes.
pub open spec fn wrote<T: BinaryStream>(file: &T, origin: Seq<u8>, start: nat, sofar: Seq<u8>) -> bool {
    file.contents() == write_at(origin, start, sofar) && file.cursor() == start + sofar.len()
}

/// A write at the cursor, behind the bytes written so far, adds to them.
pub proof fn lemma_wrote_more<T: BinaryStream>(
    before: &T,
    after: &T,
    origin: Seq<u8>,
    start: nat,
    sofar: Seq<u8>,
    piece: Seq<u8>,
)
    requires
        wrote(before, origin, start, sofar),
        after.contents() == write_at(before.contents(), before.cursor(), piece),
        after.cursor() == before.cursor() + piece.len(),
    ensures
        wrote(after, origin, start, sofar + piece),
{
    lemma_write_at_concat(origin, start, sofar, piece);
}

/// Every word has as many bytes as its width says.
pub proof fn lemma_word_lengths(a: u32, b: u64, c: u128)
    ensures
        spec_u32_to_le_bytes(a).len() == 4,
        spec_u64_to_le_bytes(b).len() == 8,
        spec_u128_to_le_bytes(c).len() == 16,
{
    vstd::bytes::lemma_auto_spec_u32_to_from_le_bytes();
    vstd::bytes::lemma_auto_spec_u64_to_from_le_bytes();
    vstd::bytes::lemma_auto_spec_u128_to_from_le_bytes();
}

/// Writes `data` behind the bytes written so far.
pub(crate) fn emit<T: BinaryStream>(
    file: &mut T,
    data: &[u8],
    Ghost(origin): Ghost<Seq<u8>>,
    Ghost(start): Ghost<nat>,
    Ghost(sofar): Ghost<Seq<u8>>,
) -> (r: Result<(), PakError>)
    requires
        wrote(old(file), origin, start, sofar),
    ensures
        final(file).capacity() == old(file).capacity(),
        final(file).reliable() == old(file).reliable(),
        match r {
            Ok(()) => wrote(final(file), origin, start, sofar + data@) && fits(
                old(file).capacity(),
                start + sofar.len(),
                data@.len(),
            ),
            Err(e) => write_failure(
                old(file).capacity(),
                start + sofar.len(),
                data@.len(),
                old(file).reliable(),
                e,
            ),
        },
{
    proof {
        lemma_write_at_concat(origin, start, sofar, data@);
    }
    file.write_bytes(data)
}

/// Writes a 32-bit word behind the bytes written so far.
pub(crate) fn emit_u32<T: BinaryStream>(
    file: &mut T,
    value: u32,
    Ghost(origin): Ghost<Seq<u8>>,
    Ghost(start): Ghost<nat>,
    Ghost(sofar): Ghost<Seq<u8>>,
) -> (r: Result<(), PakError>)
    requires
        wrote(old(file), origin, start, sofar),
    ensures
        final(file).capacity() == old(file).capacity(),
        final(file).reliable() == old(file).reliable(),
        spec_u32_to_le_bytes(value).len() == 4,
        match r {
            Ok(()) => wrote(final(file), origin, start, sofar + spec_u32_to_le_bytes(value))
                && start + sofar.len() + 4 <= old(file).capacity(),
            Err(e) => write_failure(
                old(file).capacity(),
                start + sofar.len(),
                4,
                old(file).reliable(),
                e,
            ),
        },
{
    proof {
        lemma_word_lengths(value, 0, 0);
        lemma_write_at_concat(origin, start, sofar, spec_u32_to_le_bytes(value));
    }
    file.write_u32(value)
}

/// Writes a 128-bit word behind the bytes written so far.
pub(crate) fn emit_u128<T: BinaryStream>(
    file: &mut T,
    value: u128,
    Ghost(origin): Ghost<Seq<u8>>,
    Ghost(start): Ghost<nat>,
    Ghost(sofar): Ghost<Seq<u8>>,
) -> (r: Result<(), PakError>)
    requires
        wrote(old(file), origin, start, sofar),
    ensures
        final(file).capacity() == old(file).capacity(),
        final(file).reliable() == old(file).reliable(),
        spec_u128_to_le_bytes(value).len() == 16,
        match r {
            Ok(()) => wrote(final(file), origin, start, sofar + spec_u128_to_le_bytes(value))
                && start + sofar.len() + 16 <= old(file).capacity(),
            Err(e) => write_failure(
                old(file).capacity(),
                start + sofar.len(),
                16,
                old(file).reliable(),
                e,
            ),
        },
{
    proof {
        lemma_word_lengths(0, 0, value);
        lemma_write_at_concat(origin, start, sofar, spec_u128_to_le_bytes(value));
    }
    file.write_u128(value)
}

/// Copies `size` bytes from `input`'s cursor to `output_file`'s cursor,
/// through a buffer of at most `COPY_CHUNK` bytes at a time.
pub fn copy_data<S: BinaryStream, T: BinaryStream>(
    input: &mut S,
    output_file: &mut T,
    size: u64,
) -> (r: Result<
    (),
    PakError,
>)
    ensures
        final(input).contents() == old(input).contents(),
        final(input).capacity() == old(input).capacity(),
        final(input).reliable() == old(input).reliable(),
        final(output_file).capacity() == old(output_file).capacity(),
        final(output_file).reliable() == old(output_file).reliable(),
        match r {
            Ok(()) => {
                &&& readable(old(input).contents().len(), old(input).cursor(), size as nat)
                &&& fits(old(output_file).capacity(), old(output_file).cursor(), size as nat)
                &&& final(input).cursor() == old(input).cursor() + size
                &&& final(output_file).cursor() == old(output_file).cursor() + size
                &&& final(output_file).contents() == write_at(
                    old(output_file).contents(),
                    old(output_file).cursor(),
                    span(old(input).contents(), old(input).cursor(), size as nat),
                )
            },
            Err(e) => {
                ||| read_failure(
                    old(input).contents().len(),
                    old(input).cursor(),
                    size as nat,
                    old(input).reliable(),
                    e,
                )
                ||| write_failure(
                    old(output_file).capacity(),
                    old(output_file).cursor(),
                    size as nat,
                    old(output_file).reliable(),
                    e,
                )
            },
        },
{
    let ghost source = input.contents();
    let ghost from = input.cursor();
    let ghost target = output_file.contents();
    let ghost to = output_file.cursor();
    let mut bytes_left = size;
    proof {
        assert(span(source, from, 0) =~= Seq::<u8>::empty());
    }
    while bytes_left > 0
        invariant
            bytes_left <= size,
            input.contents() == source,
            input.capacity() == old(input).capacity(),
            input.reliable() == old(input).reliable(),
            output_file.capacity() == old(output_file).capacity(),
            output_file.reliable() == old(output_file).reliable(),
            source == old(input).contents(),
            from == old(input).cursor(),
            target == old(output_file).contents(),
            to == old(output_file).cursor(),
            input.cursor() == from + (size - bytes_left),
            output_file.cursor() == to + (size - bytes_left),
            readable(source.len(), from, (size - bytes_left) as nat),
            fits(output_file.capacity(), to, (size - bytes_left) as nat),
            output_file.contents() == write_at(
                target,
                to,
                span(source, from, (size - bytes_left) as nat),
            ),
        decreases bytes_left,
    {
        let bytes_to_read: usize = if bytes_left < COPY_CHUNK as u64 {
            bytes_left as usize
        } else {
            COPY_CHUNK
        };
        let ghost done = (size - bytes_left) as nat;
        let buffer = input.read_vector(bytes_to_read)?;
        output_file.write_bytes(buffer.as_slice())?;
        bytes_left -= bytes_to_read as u64;
        proof {
            lemma_span_concat(source, from, done, bytes_to_read as nat);
            lemma_write_at_concat(target, to, span(source, from, done), buffer@);
        }
    }
    Ok(())
}

} // verus!
