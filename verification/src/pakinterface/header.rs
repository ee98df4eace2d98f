//! The header that starts every container and every typed resource.

use crate::error::{eof, is_fault, FormatError, PakError, UsageError};
use crate::span::{fits, span, write_at, zeros};
use crate::util::{
    decode_text, emit, emit_u128, emit_u32, same_text, spec_string_length, string_length,
    write_failure, wrote, BinaryStream,
};
use vstd::bytes::{
    spec_u128_from_le_bytes, spec_u128_to_le_bytes, spec_u32_from_le_bytes, spec_u32_to_le_bytes,
};
use vstd::prelude::*;
use vstd::slice::{slice_subrange, slice_to_vec};
use vstd::utf8::{decode_utf8, encode_utf8, is_ascii_chars, valid_utf8};

verus! {

/// The word every resource header starts with: the tag `RES1`, first
/// letter in the highest byte.
pub const RESOURCE_MAGIC: u32 = 0x52455331;

/// The bytes of a header that are always there: magic, class field, UUID,
/// the unused word, the metadata count and the payload size.
pub const HEADER_OVERHEAD: u32 = 0x40;

/// The width of the class field.
pub const CLASS_FIELD_LEN: usize = 0x20;

/// The class names that mark a header as that of a container.
pub open spec fn spec_is_node_class(class: Seq<char>) -> bool {
    class == "pak"@ || class == "ssl_block"@ || class == "cache_block"@
}

/// Whether `class` is one of the container classes.
pub fn is_node_class(class: &str) -> (r: bool)
    ensures
        r == spec_is_node_class(class@),
{
    same_text(class, "pak") || same_text(class, "ssl_block") || same_text(class, "cache_block")
}

/// One metadata record of a header, as a value.
pub struct MetaDataView {
    pub unk0: u32,
    pub unk1: u128,
    pub name_data: Seq<u8>,
}

/// One metadata record of a header: a tag, an auxiliary word and free bytes.
#[derive(Debug)]
pub struct MetaData {
    unk0: u32,
    unk1: u128,
    name_data: Vec<u8>,
}

impl View for MetaData {
    type V = MetaDataView;

    closed spec fn view(&self) -> MetaDataView {
        MetaDataView { unk0: self.unk0, unk1: self.unk1, name_data: self.name_data@ }
    }
}

impl MetaData {
    pub fn new(unk0: u32, unk1: u128, name_data: Vec<u8>) -> (r: Self)
        ensures
            r@ == (MetaDataView { unk0, unk1, name_data: name_data@ }),
    {
        MetaData { unk0, unk1, name_data }
    }

    pub fn unk0(&self) -> (r: &u32)
        ensures
            *r == self@.unk0,
    {
        &self.unk0
    }

    pub fn unk1(&self) -> (r: &u128)
        ensures
            *r == self@.unk1,
    {
        &self.unk1
    }

    pub fn name_data(&self) -> (r: &Vec<u8>)
        ensures
            r@ == self@.name_data,
    {
        &self.name_data
    }
}

impl Default for MetaData {
    fn default() -> (r: Self)
        ensures
            r@ == (MetaDataView { unk0: 0, unk1: 0, name_data: Seq::empty() }),
    {
        MetaData { unk0: 0, unk1: 0, name_data: Vec::new() }
    }
}

/// A resource header, as a value.
pub struct HeaderView {
    pub class: Seq<char>,
    pub uuid: u128,
    pub unk0: u32,
    pub meta_data: Seq<MetaDataView>,
    /// Where in the stream the header was read.
    pub base: u64,
    /// The bytes the header takes in the stream.
    pub size: u32,
}

/// The block that starts every container and every typed resource.
#[derive(Debug)]
pub struct ResourceHeader {
    class: String,
    uuid: u128,
    unk0: u32,
    meta_data: Vec<MetaData>,
    base: u64,
    size: u32,
}

/// The views of a run of metadata records.
pub open spec fn meta_views(entries: Seq<MetaData>) -> Seq<MetaDataView> {
    entries.map_values(|m: MetaData| m@)
}

impl View for ResourceHeader {
    type V = HeaderView;

    closed spec fn view(&self) -> HeaderView {
        HeaderView {
            class: self.class@,
            uuid: self.uuid,
            unk0: self.unk0,
            meta_data: meta_views(self.meta_data@),
            base: self.base,
            size: self.size,
        }
    }
}

/// The bytes of one metadata record.
pub open spec fn meta_entry_bytes(m: MetaDataView) -> Seq<u8> {
    spec_u32_to_le_bytes(m.unk0) + spec_u128_to_le_bytes(m.unk1) + spec_u32_to_le_bytes(
        m.name_data.len() as u32,
    ) + m.name_data
}

/// The bytes of a run of metadata records, in order.
pub open spec fn meta_bytes(entries: Seq<MetaDataView>) -> Seq<u8>
    decreases entries.len(),
{
    if entries.len() == 0 {
        Seq::empty()
    } else {
        meta_bytes(entries.drop_last()) + meta_entry_bytes(entries.last())
    }
}

/// How many bytes a run of metadata records takes.
pub open spec fn meta_len(entries: Seq<MetaDataView>) -> nat
    decreases entries.len(),
{
    if entries.len() == 0 {
        0
    } else {
        meta_len(entries.drop_last()) + 24 + entries.last().name_data.len()
    }
}

/// The class field: the name, then zeros up to 32 bytes.
pub open spec fn class_field(class: Seq<char>) -> Seq<u8> {
    encode_utf8(class) + zeros((0x20 - encode_utf8(class).len()) as nat)
}

/// The bytes of a header. The payload size written is that of the
/// metadata as it stands.
pub open spec fn header_bytes(h: HeaderView) -> Seq<u8> {
    spec_u32_to_le_bytes(RESOURCE_MAGIC) + class_field(h.class) + spec_u128_to_le_bytes(h.uuid)
        + spec_u32_to_le_bytes(h.unk0) + spec_u32_to_le_bytes(h.meta_data.len() as u32)
        + spec_u32_to_le_bytes(meta_len(h.meta_data) as u32) + meta_bytes(h.meta_data)
}

/// How many bytes a header takes when written.
pub open spec fn header_len(h: HeaderView) -> nat {
    0x40 + meta_len(h.meta_data)
}

/// Why a header cannot be written, if it cannot: its class holds a
/// character outside ASCII, or is longer than the field, or its metadata
/// does not fit the 32-bit count and sizes.
pub open spec fn header_refusal(h: HeaderView) -> Option<UsageError> {
    if !is_ascii_chars(h.class) {
        Some(UsageError::ClassNotAscii)
    } else if h.class.len() > 0x20 {
        Some(UsageError::ClassTooLong)
    } else if h.meta_data.len() > u32::MAX || 0x40 + meta_len(h.meta_data) > u32::MAX {
        Some(UsageError::TooLarge)
    } else {
        None
    }
}

/// The class held in a class field: its bytes up to the first zero.
pub open spec fn class_bytes(field: Seq<u8>) -> Seq<u8> {
    field.subrange(0, spec_string_length(field) as int)
}

/// One metadata record at `pos`, and the position after it.
pub open spec fn parse_meta_entry(bytes: Seq<u8>, pos: nat) -> Result<(MetaDataView, nat), PakError> {
    if pos + 24 > bytes.len() {
        Err(eof())
    } else {
        let count = spec_u32_from_le_bytes(span(bytes, pos + 20, 4)) as nat;
        if pos + 24 + count > bytes.len() {
            Err(eof())
        } else {
            Ok(
                (
                    MetaDataView {
                        unk0: spec_u32_from_le_bytes(span(bytes, pos, 4)),
                        unk1: spec_u128_from_le_bytes(span(bytes, pos + 4, 16)),
                        name_data: span(bytes, pos + 24, count),
                    },
                    pos + 24 + count,
                ),
            )
        }
    }
}

/// `count` metadata records from `pos` on, and the position after them.
pub open spec fn parse_meta(bytes: Seq<u8>, pos: nat, count: nat) -> Result<
    (Seq<MetaDataView>, nat),
    PakError,
>
    decreases count,
{
    if count == 0 {
        Ok((Seq::empty(), pos))
    } else {
        match parse_meta(bytes, pos, (count - 1) as nat) {
            Err(e) => Err(e),
            Ok((entries, at)) => match parse_meta_entry(bytes, at) {
                Err(e) => Err(e),
                Ok((entry, end)) => Ok((entries.push(entry), end)),
            },
        }
    }
}

/// What stands at `pos`: no header (`Ok(None)`) where the first word is not
/// the magic, else the header, or the reason why the bytes after the
/// magic are not one.
pub open spec fn parse_header(bytes: Seq<u8>, pos: nat) -> Result<Option<HeaderView>, PakError> {
    if pos + 4 > bytes.len() {
        Err(eof())
    } else if spec_u32_from_le_bytes(span(bytes, pos, 4)) != RESOURCE_MAGIC {
        Ok(None)
    } else if pos + 0x24 > bytes.len() {
        Err(eof())
    } else if !valid_utf8(class_bytes(span(bytes, pos + 4, 0x20))) {
        Err(PakError::Format(FormatError::BadClass))
    } else if pos + 0x40 > bytes.len() {
        Err(eof())
    } else {
        let class = decode_utf8(class_bytes(span(bytes, pos + 4, 0x20)));
        let count = spec_u32_from_le_bytes(span(bytes, pos + 0x38, 4));
        let payload = spec_u32_from_le_bytes(span(bytes, pos + 0x3c, 4));
        if payload + 0x40 > u32::MAX {
            Err(PakError::Format(FormatError::HeaderTooLarge))
        } else {
            match parse_meta(bytes, pos + 0x40, count as nat) {
                Err(e) => Err(e),
                Ok((entries, end)) => if spec_is_node_class(class) && (count != 0 || payload
                    != 0) {
                    Err(PakError::Format(FormatError::ContainerWithPayload))
                } else if end != pos + 0x40 + payload {
                    Err(PakError::Format(FormatError::HeaderSizeMismatch))
                } else {
                    Ok(
                        Some(
                            HeaderView {
                                class,
                                uuid: spec_u128_from_le_bytes(span(bytes, pos + 0x24, 16)),
                                unk0: spec_u32_from_le_bytes(span(bytes, pos + 0x34, 4)),
                                meta_data: entries,
                                base: pos as u64,
                                size: (payload + 0x40) as u32,
                            },
                        ),
                    )
                },
            }
        }
    }
}

/// Once a record fails to parse, so does every longer run.
pub proof fn lemma_parse_meta_error_stays(bytes: Seq<u8>, pos: nat, failed: nat, count: nat)
    requires
        failed <= count,
        parse_meta(bytes, pos, failed) is Err,
    ensures
        parse_meta(bytes, pos, count) == parse_meta(bytes, pos, failed),
    decreases count,
{
    if failed < count {
        lemma_parse_meta_error_stays(bytes, pos, failed, (count - 1) as nat);
    }
}

/// Parsing records never moves backwards.
pub proof fn lemma_parse_meta_advances(bytes: Seq<u8>, pos: nat, count: nat)
    ensures
        parse_meta(bytes, pos, count) matches Ok((_, end)) ==> pos <= end <= bytes.len() || (count
            == 0 && end == pos),
    decreases count,
{
    if count > 0 {
        lemma_parse_meta_advances(bytes, pos, (count - 1) as nat);
    }
}

/// The length of `meta_bytes` is `meta_len`.
pub proof fn lemma_meta_bytes_len(entries: Seq<MetaDataView>)
    ensures
        meta_bytes(entries).len() == meta_len(entries),
    decreases entries.len(),
{
    vstd::bytes::lemma_auto_spec_u32_to_from_le_bytes();
    vstd::bytes::lemma_auto_spec_u128_to_from_le_bytes();
    if entries.len() > 0 {
        lemma_meta_bytes_len(entries.drop_last());
    }
}

impl ResourceHeader {
    /// A header that has not been read from a stream: its base is 0 and its
    /// size is the fixed overhead.
    pub fn new(class: String, uuid: u128, unk0: u32, meta_data: Vec<MetaData>) -> (r: Self)
        ensures
            r@ == (HeaderView {
                class: class@,
                uuid,
                unk0,
                meta_data: meta_views(meta_data@),
                base: 0,
                size: HEADER_OVERHEAD,
            }),
    {
        ResourceHeader { class, uuid, unk0, meta_data, base: 0, size: HEADER_OVERHEAD }
    }

    pub fn class(&self) -> (r: &String)
        ensures
            r@ == self@.class,
    {
        &self.class
    }

    pub fn uuid(&self) -> (r: &u128)
        ensures
            *r == self@.uuid,
    {
        &self.uuid
    }

    pub fn unk0(&self) -> (r: &u32)
        ensures
            *r == self@.unk0,
    {
        &self.unk0
    }

    pub fn meta_data(&self) -> (r: &Vec<MetaData>)
        ensures
            meta_views(r@) == self@.meta_data,
    {
        &self.meta_data
    }

    /// Where in its stream the header was read.
    pub fn base(&self) -> (r: &u64)
        ensures
            *r == self@.base,
    {
        &self.base
    }

    /// The bytes the header took in its stream.
    pub fn size(&self) -> (r: &u32)
        ensures
            *r == self@.size,
    {
        &self.size
    }

    /// Whether the class is one of the container classes.
    pub fn is_node(&self) -> (r: bool)
        ensures
            r == spec_is_node_class(self@.class),
    {
        is_node_class(self.class.as_str())
    }

    /// How many bytes `write` emits for this header, or why it refuses it.
    #[verifier::loop_isolation(false)]
    pub fn written_len(&self) -> (r: Result<u32, UsageError>)
        ensures
            match r {
                Ok(len) => header_refusal(self@) is None && len == header_len(self@),
                Err(e) => header_refusal(self@) == Some(e),
            },
    {
        if !self.class.is_ascii() {
            return Err(UsageError::ClassNotAscii);
        }
        proof {
            vstd::utf8::is_ascii_chars_encode_utf8(self.class@);
        }
        if self.class.as_str().as_bytes().len() > CLASS_FIELD_LEN {
            return Err(UsageError::ClassTooLong);
        }
        let count = self.meta_data.len();
        if count > u32::MAX as usize {
            return Err(UsageError::TooLarge);
        }
        let limit: u64 = (u32::MAX - HEADER_OVERHEAD) as u64;
        let mut total: u64 = 0;
        let mut i: usize = 0;
        let ghost entries = self@.meta_data;
        while i < count
            invariant
                i <= count,
                count == self.meta_data@.len(),
                entries == meta_views(self.meta_data@),
                limit == u32::MAX - 0x40,
                total == meta_len(entries.take(i as int)),
                total <= limit,
            decreases count - i,
        {
            let name_len = self.meta_data[i].name_data.len();
            proof {
                assert(entries.take(i + 1).drop_last() =~= entries.take(i as int));
                assert(entries.take(i + 1).last() == self.meta_data@[i as int]@);
                assert(meta_len(entries.take(i + 1)) == meta_len(entries.take(i as int)) + 24
                    + name_len);
                lemma_meta_len_grows(entries, (i + 1) as nat);
            }
            if name_len as u64 > limit || total + 24 + name_len as u64 > limit {
                return Err(UsageError::TooLarge);
            }
            total = total + 24 + name_len as u64;
            i += 1;
        }
        proof {
            assert(entries.take(count as int) =~= entries);
        }
        Ok(total as u32 + HEADER_OVERHEAD)
    }

    /// Reads the header at the cursor.
    ///
    /// Gives `Ok(None)` where the first word is not the magic: the bytes
    /// there are then no header. After `Ok(Some(..))` the cursor stands
    /// just behind the header; otherwise it stands anywhere.
    #[verifier::loop_isolation(false)]
    pub fn read<T: BinaryStream>(file: &mut T) -> (r: Result<Option<ResourceHeader>, PakError>)
        ensures
            final(file).contents() == old(file).contents(),
            final(file).capacity() == old(file).capacity(),
            final(file).reliable() == old(file).reliable(),
            match r {
                Ok(Some(header)) => {
                    &&& parse_header(old(file).contents(), old(file).cursor()) == Ok::<
                        Option<HeaderView>,
                        PakError,
                    >(Some(header@))
                    &&& header@.base == old(file).cursor()
                    &&& final(file).cursor() == header@.base + header@.size
                },
                Ok(None) => parse_header(old(file).contents(), old(file).cursor()) == Ok::<
                    Option<HeaderView>,
                    PakError,
                >(None),
                Err(e) => parse_header(old(file).contents(), old(file).cursor()) == Err::<
                    Option<HeaderView>,
                    PakError,
                >(e) || is_fault(old(file).reliable(), e),
            },
    {
        let ghost bytes = file.contents();
        let ghost pos = file.cursor();
        let magic = file.read_u32()?;
        if magic != RESOURCE_MAGIC {
            return Ok(None);
        }
        let base = file.position()? - 4;

        let resource_class = file.read_vector(CLASS_FIELD_LEN)?;
        let len = string_length(resource_class.as_slice());
        let class = match decode_text(slice_to_vec(slice_subrange(resource_class.as_slice(), 0, len))) {
            Some(class) => class,
            None => {
                return Err(PakError::Format(FormatError::BadClass));
            },
        };

        let uuid = file.read_u128()?;
        let unk0 = file.read_u32()?;
        let meta_data_count = file.read_u32()?;
        let payload = file.read_u32()?;
        if payload > u32::MAX - HEADER_OVERHEAD {
            return Err(PakError::Format(FormatError::HeaderTooLarge));
        }
        let size = payload + HEADER_OVERHEAD;

        let mut meta_data: Vec<MetaData> = Vec::new();
        let mut i: u32 = 0;
        proof {
            assert(meta_views(meta_data@) =~= Seq::<MetaDataView>::empty());
        }
        while i < meta_data_count
            invariant
                i <= meta_data_count,
                file.contents() == bytes,
                file.capacity() == old(file).capacity(),
                file.reliable() == old(file).reliable(),
                parse_meta(bytes, pos + 0x40, i as nat) == Ok::<(Seq<MetaDataView>, nat), PakError>(
                    (meta_views(meta_data@), file.cursor()),
                ),
            decreases meta_data_count - i,
        {
            let ghost at = file.cursor();
            let ghost before = meta_views(meta_data@);
            proof {
                if parse_meta_entry(bytes, at) is Err {
                    lemma_parse_meta_error_stays(
                        bytes,
                        pos + 0x40,
                        (i + 1) as nat,
                        meta_data_count as nat,
                    );
                }
            }
            let entry_unk0 = file.read_u32()?;
            let entry_unk1 = file.read_u128()?;
            let string_len = file.read_u32()?;
            let name_data = file.read_vector(string_len as usize)?;
            let entry = MetaData { unk0: entry_unk0, unk1: entry_unk1, name_data };
            meta_data.push(entry);
            i += 1;
            proof {
                assert(meta_views(meta_data@) =~= before.push(entry@));
            }
        }

        let header = ResourceHeader { class, uuid, unk0, meta_data, base, size };
        if header.is_node() && (meta_data_count != 0 || payload != 0) {
            return Err(PakError::Format(FormatError::ContainerWithPayload));
        }
        proof {
            lemma_parse_meta_advances(bytes, pos + 0x40, meta_data_count as nat);
        }
        let end = file.position()?;
        if end - base != size as u64 {
            return Err(PakError::Format(FormatError::HeaderSizeMismatch));
        }
        Ok(Some(header))
    }

    /// Writes the header at the cursor.
    ///
    /// A header that cannot be written (see `header_refusal`) is refused
    /// before a byte is written.
    #[verifier::loop_isolation(false)]
    pub fn write<T: BinaryStream>(&self, file: &mut T) -> (r: Result<(), PakError>)
        ensures
            final(file).capacity() == old(file).capacity(),
            final(file).reliable() == old(file).reliable(),
            match r {
                Ok(()) => {
                    &&& header_refusal(self@) is None
                    &&& fits(old(file).capacity(), old(file).cursor(), header_len(self@))
                    &&& final(file).contents() == write_at(
                        old(file).contents(),
                        old(file).cursor(),
                        header_bytes(self@),
                    )
                    &&& final(file).cursor() == old(file).cursor() + header_len(self@)
                },
                Err(e) => match header_refusal(self@) {
                    Some(u) => {
                        &&& e == PakError::Usage(u)
                        &&& final(file).contents() == old(file).contents()
                        &&& final(file).cursor() == old(file).cursor()
                    },
                    None => write_failure(
                        old(file).capacity(),
                        old(file).cursor(),
                        header_len(self@),
                        old(file).reliable(),
                        e,
                    ),
                },
            },
    {
        let total = match self.written_len() {
            Ok(total) => total,
            Err(u) => {
                return Err(PakError::Usage(u));
            },
        };
        let ghost origin = file.contents();
        let ghost start = file.cursor();
        let ghost entries = self@.meta_data;
        proof {
            vstd::utf8::is_ascii_chars_encode_utf8(self.class@);
            lemma_meta_bytes_len(entries);
            assert(write_at(origin, start, Seq::<u8>::empty()) == origin);
        }
        let ghost mut sofar = Seq::<u8>::empty();
        emit_u32(file, RESOURCE_MAGIC, Ghost(origin), Ghost(start), Ghost(sofar))?;
        proof {
            sofar = sofar + spec_u32_to_le_bytes(RESOURCE_MAGIC);
        }
        let class = self.class.as_str().as_bytes();
        emit(file, class, Ghost(origin), Ghost(start), Ghost(sofar))?;
        proof {
            sofar = sofar + class@;
        }
        let pad_len: usize = CLASS_FIELD_LEN - class.len();
        let pad: Vec<u8> = vec![0u8; pad_len];
        proof {
            assert(pad@ =~= zeros((0x20 - class@.len()) as nat));
        }
        emit(file, pad.as_slice(), Ghost(origin), Ghost(start), Ghost(sofar))?;
        proof {
            sofar = sofar + pad@;
        }
        emit_u128(file, self.uuid, Ghost(origin), Ghost(start), Ghost(sofar))?;
        proof {
            sofar = sofar + spec_u128_to_le_bytes(self.uuid);
        }
        emit_u32(file, self.unk0, Ghost(origin), Ghost(start), Ghost(sofar))?;
        proof {
            sofar = sofar + spec_u32_to_le_bytes(self.unk0);
        }
        emit_u32(file, self.meta_data.len() as u32, Ghost(origin), Ghost(start), Ghost(sofar))?;
        proof {
            sofar = sofar + spec_u32_to_le_bytes(self.meta_data.len() as u32);
        }
        emit_u32(file, total - HEADER_OVERHEAD, Ghost(origin), Ghost(start), Ghost(sofar))?;
        proof {
            sofar = sofar + spec_u32_to_le_bytes((total - HEADER_OVERHEAD) as u32);
        }
        let ghost fixed = sofar;
        proof {
            assert(fixed =~= spec_u32_to_le_bytes(RESOURCE_MAGIC) + class_field(self@.class)
                + spec_u128_to_le_bytes(self@.uuid) + spec_u32_to_le_bytes(self@.unk0)
                + spec_u32_to_le_bytes(entries.len() as u32) + spec_u32_to_le_bytes(
                meta_len(entries) as u32,
            ));
            assert(fixed + meta_bytes(entries.take(0)) =~= fixed);
        }
        self.write_meta(file, Ghost(origin), Ghost(start), Ghost(fixed))?;
        Ok(())
    }

    /// Writes the metadata records behind the fixed part of the header.
    fn write_meta<T: BinaryStream>(
        &self,
        file: &mut T,
        Ghost(origin): Ghost<Seq<u8>>,
        Ghost(start): Ghost<nat>,
        Ghost(fixed): Ghost<Seq<u8>>,
    ) -> (r: Result<(), PakError>)
        requires
            wrote(old(file), origin, start, fixed),
            fixed.len() == 0x40,
            start + 0x40 <= old(file).capacity(),
            0x40 + meta_len(self@.meta_data) <= u32::MAX,
        ensures
            final(file).capacity() == old(file).capacity(),
            final(file).reliable() == old(file).reliable(),
            match r {
                Ok(()) => wrote(final(file), origin, start, fixed + meta_bytes(self@.meta_data))
                    && fits(old(file).capacity(), start, header_len(self@)),
                Err(e) => write_failure(
                    old(file).capacity(),
                    start,
                    header_len(self@),
                    old(file).reliable(),
                    e,
                ),
            },
    {
        let ghost entries = self@.meta_data;
        let mut i: usize = 0;
        proof {
            assert(fixed + meta_bytes(entries.take(0)) =~= fixed);
        }
        while i < self.meta_data.len()
            invariant
                i <= self.meta_data@.len(),
                entries == meta_views(self.meta_data@),
                entries == self@.meta_data,
                fixed.len() == 0x40,
                0x40 + meta_len(entries) <= u32::MAX,
                file.capacity() == old(file).capacity(),
                file.reliable() == old(file).reliable(),
                wrote(file, origin, start, fixed + meta_bytes(entries.take(i as int))),
                start + 0x40 + meta_len(entries.take(i as int)) <= file.capacity(),
            decreases self.meta_data@.len() - i,
        {
            let entry = &self.meta_data[i];
            let ghost done = fixed + meta_bytes(entries.take(i as int));
            proof {
                assert(entries.take(i + 1).drop_last() =~= entries.take(i as int));
                assert(entries.take(i + 1).last() == entry@);
                assert(meta_len(entries.take(i + 1)) == meta_len(entries.take(i as int)) + 24
                    + entry.name_data@.len());
                assert(meta_bytes(entries.take(i + 1)) == meta_bytes(entries.take(i as int))
                    + meta_entry_bytes(entry@));
                lemma_meta_len_grows(entries, (i + 1) as nat);
                lemma_meta_bytes_len(entries.take(i as int));
            }
            emit_u32(file, entry.unk0, Ghost(origin), Ghost(start), Ghost(done))?;
            let ghost a = done + spec_u32_to_le_bytes(entry.unk0);
            emit_u128(file, entry.unk1, Ghost(origin), Ghost(start), Ghost(a))?;
            let ghost b = a + spec_u128_to_le_bytes(entry.unk1);
            emit_u32(file, entry.name_data.len() as u32, Ghost(origin), Ghost(start), Ghost(b))?;
            let ghost c = b + spec_u32_to_le_bytes(entry.name_data@.len() as u32);
            emit(file, entry.name_data.as_slice(), Ghost(origin), Ghost(start), Ghost(c))?;
            proof {
                assert(c + entry.name_data@ =~= fixed + meta_bytes(entries.take(i + 1)));
            }
            i += 1;
        }
        proof {
            assert(entries.take(self.meta_data@.len() as int) =~= entries);
        }
        Ok(())
    }
}

/// A header that can be written takes as many bytes as `header_len` says.
pub proof fn lemma_header_bytes_len(h: HeaderView)
    requires
        header_refusal(h) is None,
    ensures
        header_bytes(h).len() == header_len(h),
        header_len(h) <= u32::MAX,
{
    vstd::utf8::is_ascii_chars_encode_utf8(h.class);
    crate::util::lemma_word_lengths(0, 0, 0);
    vstd::bytes::lemma_auto_spec_u32_to_from_le_bytes();
    vstd::bytes::lemma_auto_spec_u128_to_from_le_bytes();
    lemma_meta_bytes_len(h.meta_data);
}

/// A longer run of records is no shorter in bytes.
pub proof fn lemma_meta_len_grows(entries: Seq<MetaDataView>, n: nat)
    requires
        n <= entries.len(),
    ensures
        meta_len(entries.take(n as int)) <= meta_len(entries),
    decreases entries.len(),
{
    if n < entries.len() {
        assert(entries.drop_last().take(n as int) =~= entries.take(n as int));
        lemma_meta_len_grows(entries.drop_last(), n);
    } else {
        assert(entries.take(n as int) =~= entries);
    }
}

impl Default for ResourceHeader {
    fn default() -> (r: Self)
        ensures
            r@ == (HeaderView {
                class: Seq::empty(),
                uuid: 0,
                unk0: 0,
                meta_data: Seq::empty(),
                base: 0,
                size: 0,
            }),
    {
        let r = ResourceHeader {
            class: String::new(),
            uuid: 0,
            unk0: 0,
            meta_data: Vec::new(),
            base: 0,
            size: 0,
        };
        assert(meta_views(r.meta_data@) =~= Seq::<MetaDataView>::empty());
        r
    }
}

} // verus!
