//! Header symmetry: a header that was written reads back as it was.

use crate::error::PakError;
use crate::pakinterface::header::{
    class_bytes, class_field, header_bytes, header_len, header_refusal, lemma_meta_bytes_len,
    meta_bytes, meta_entry_bytes, meta_len, parse_header, parse_meta, parse_meta_entry,
    spec_is_node_class, HeaderView, MetaDataView, RESOURCE_MAGIC,
};
use crate::span::{lemma_span_of_span, span};
use crate::util::lemma_string_length;
use vstd::bytes::{
    spec_u128_from_le_bytes, spec_u128_to_le_bytes, spec_u32_from_le_bytes, spec_u32_to_le_bytes,
};
use vstd::prelude::*;
use vstd::utf8::{encode_utf8, is_ascii_chars};

verus! {

/// The header that `read` gives back for the bytes of `h` written at `pos`:
/// `h` itself, with the place where it was found and the size it took.
pub open spec fn header_as_read(h: HeaderView, pos: nat) -> HeaderView {
    HeaderView { base: pos as u64, size: header_len(h) as u32, ..h }
}

/// A header that reads back as it was written: it can be written, its class
/// holds no NUL, and if its class is a container class it has no metadata.
pub open spec fn header_round_trips(h: HeaderView) -> bool {
    &&& header_refusal(h) is None
    &&& forall|i: int| 0 <= i < h.class.len() ==> h.class[i] != '\0'
    &&& spec_is_node_class(h.class) ==> h.meta_data.len() == 0
}

proof fn lemma_u32_round_trip(x: u32)
    ensures
        spec_u32_from_le_bytes(spec_u32_to_le_bytes(x)) == x,
        spec_u32_to_le_bytes(x).len() == 4,
{
    vstd::bytes::lemma_auto_spec_u32_to_from_le_bytes();
}

proof fn lemma_u128_round_trip(x: u128)
    ensures
        spec_u128_from_le_bytes(spec_u128_to_le_bytes(x)) == x,
        spec_u128_to_le_bytes(x).len() == 16,
{
    vstd::bytes::lemma_auto_spec_u128_to_from_le_bytes();
}

/// The bytes of one record parse back to the record.
proof fn lemma_parse_meta_entry_of_bytes(bytes: Seq<u8>, pos: nat, m: MetaDataView)
    requires
        m.name_data.len() <= u32::MAX,
        pos + 24 + m.name_data.len() <= bytes.len(),
        span(bytes, pos, 24 + m.name_data.len()) == meta_entry_bytes(m),
    ensures
        parse_meta_entry(bytes, pos) == Ok::<(MetaDataView, nat), PakError>(
            (m, pos + 24 + m.name_data.len()),
        ),
{
    let n = m.name_data.len();
    let total = 24 + n;
    let image = meta_entry_bytes(m);
    lemma_u32_round_trip(m.unk0);
    lemma_u128_round_trip(m.unk1);
    lemma_u32_round_trip(n as u32);
    lemma_span_of_span(bytes, pos, total, 0, 4);
    lemma_span_of_span(bytes, pos, total, 4, 16);
    lemma_span_of_span(bytes, pos, total, 20, 4);
    lemma_span_of_span(bytes, pos, total, 24, n);
    assert(image.subrange(0, 4) =~= spec_u32_to_le_bytes(m.unk0));
    assert(image.subrange(4, 20) =~= spec_u128_to_le_bytes(m.unk1));
    assert(image.subrange(20, 24) =~= spec_u32_to_le_bytes(n as u32));
    assert(image.subrange(24, (24 + n) as int) =~= m.name_data);
    assert(span(bytes, pos, 4) == spec_u32_to_le_bytes(m.unk0));
    assert(span(bytes, pos + 4, 16) == spec_u128_to_le_bytes(m.unk1));
    assert(span(bytes, pos + 20, 4) == spec_u32_to_le_bytes(n as u32));
    assert(span(bytes, pos + 24, n) == m.name_data);
}

/// The bytes of a run of records parse back to the run.
pub proof fn lemma_parse_meta_of_bytes(bytes: Seq<u8>, pos: nat, entries: Seq<MetaDataView>)
    requires
        meta_len(entries) <= u32::MAX,
        pos + meta_len(entries) <= bytes.len(),
        span(bytes, pos, meta_len(entries)) == meta_bytes(entries),
    ensures
        parse_meta(bytes, pos, entries.len()) == Ok::<(Seq<MetaDataView>, nat), PakError>(
            (entries, pos + meta_len(entries)),
        ),
    decreases entries.len(),
{
    if entries.len() > 0 {
        let front = entries.drop_last();
        let last = entries.last();
        let n = last.name_data.len();
        lemma_meta_bytes_len(front);
        lemma_meta_bytes_len(entries);
        lemma_span_of_span(bytes, pos, meta_len(entries), 0, meta_len(front));
        lemma_span_of_span(bytes, pos, meta_len(entries), meta_len(front), 24 + n);
        assert(meta_bytes(entries).subrange(0, meta_len(front) as int) =~= meta_bytes(front));
        assert(meta_bytes(entries).subrange(
            meta_len(front) as int,
            meta_len(entries) as int,
        ) =~= meta_entry_bytes(last));
        lemma_parse_meta_of_bytes(bytes, pos, front);
        lemma_parse_meta_entry_of_bytes(bytes, pos + meta_len(front), last);
        assert(front.push(last) =~= entries);
    } else {
        assert(entries =~= Seq::<MetaDataView>::empty());
    }
}

/// A class field holds its class: the bytes up to the first zero are the
/// class's own.
proof fn lemma_class_field(class: Seq<char>)
    requires
        is_ascii_chars(class),
        class.len() <= 0x20,
        forall|i: int| 0 <= i < class.len() ==> class[i] != '\0',
    ensures
        class_field(class).len() == 0x20,
        class_bytes(class_field(class)) == encode_utf8(class),
{
    vstd::utf8::is_ascii_chars_encode_utf8(class);
    let field = class_field(class);
    let encoded = encode_utf8(class);
    assert forall|i: int| 0 <= i < class.len() implies field[i] != 0 by {
        assert(field[i] == encoded[i]);
        assert(class[i] as u8 == encoded[i]);
        assert(class[i] != '\0');
        assert('\0' <= class[i] <= '\u{7f}');
    }
    if class.len() < 0x20 {
        assert(field[class.len() as int] == 0);
    }
    lemma_string_length(field, class.len());
    assert(field.subrange(0, class.len() as int) =~= encoded);
}

/// Header symmetry: where the bytes of a header that round-trips stand at
/// `pos`, reading at `pos` yields that header, found at `pos` and as long
/// as it was written; so the cursor then stands at `pos` plus that length.
pub proof fn lemma_header_symmetry(h: HeaderView, bytes: Seq<u8>, pos: nat)
    requires
        header_round_trips(h),
        pos + header_len(h) <= bytes.len(),
        span(bytes, pos, header_len(h)) == header_bytes(h),
    ensures
        parse_header(bytes, pos) == Ok::<Option<HeaderView>, PakError>(
            Some(header_as_read(h, pos)),
        ),
        header_bytes(h).len() == header_len(h),
{
    let total = header_len(h);
    let image = header_bytes(h);
    let count = h.meta_data.len() as u32;
    let payload = meta_len(h.meta_data) as u32;
    lemma_class_field(h.class);
    lemma_meta_bytes_len(h.meta_data);
    lemma_u32_round_trip(RESOURCE_MAGIC);
    lemma_u128_round_trip(h.uuid);
    lemma_u32_round_trip(h.unk0);
    lemma_u32_round_trip(count);
    lemma_u32_round_trip(payload);
    vstd::utf8::encode_utf8_valid_utf8(h.class);
    vstd::utf8::encode_utf8_decode_utf8(h.class);
    lemma_span_of_span(bytes, pos, total, 0, 4);
    lemma_span_of_span(bytes, pos, total, 4, 0x20);
    lemma_span_of_span(bytes, pos, total, 0x24, 16);
    lemma_span_of_span(bytes, pos, total, 0x34, 4);
    lemma_span_of_span(bytes, pos, total, 0x38, 4);
    lemma_span_of_span(bytes, pos, total, 0x3c, 4);
    lemma_span_of_span(bytes, pos, total, 0x40, meta_len(h.meta_data));
    assert(image.subrange(0, 4) =~= spec_u32_to_le_bytes(RESOURCE_MAGIC));
    assert(image.subrange(4, 0x24) =~= class_field(h.class));
    assert(image.subrange(0x24, 0x34) =~= spec_u128_to_le_bytes(h.uuid));
    assert(image.subrange(0x34, 0x38) =~= spec_u32_to_le_bytes(h.unk0));
    assert(image.subrange(0x38, 0x3c) =~= spec_u32_to_le_bytes(count));
    assert(image.subrange(0x3c, 0x40) =~= spec_u32_to_le_bytes(payload));
    assert(image.subrange(0x40, total as int) =~= meta_bytes(h.meta_data));
    assert(span(bytes, pos, 4) == spec_u32_to_le_bytes(RESOURCE_MAGIC));
    assert(span(bytes, pos + 4, 0x20) == class_field(h.class));
    assert(span(bytes, pos + 0x24, 16) == spec_u128_to_le_bytes(h.uuid));
    assert(span(bytes, pos + 0x34, 4) == spec_u32_to_le_bytes(h.unk0));
    assert(span(bytes, pos + 0x38, 4) == spec_u32_to_le_bytes(count));
    assert(span(bytes, pos + 0x3c, 4) == spec_u32_to_le_bytes(payload));
    lemma_parse_meta_of_bytes(bytes, pos + 0x40, h.meta_data);
    assert(spec_is_node_class(h.class) ==> meta_len(h.meta_data) == 0);
}


/// Parsing `count` records gives `count` records.
pub proof fn lemma_parse_meta_len(bytes: Seq<u8>, pos: nat, count: nat)
    ensures
        parse_meta(bytes, pos, count) matches Ok((entries, _)) ==> entries.len() == count,
    decreases count,
{
    if count > 0 {
        lemma_parse_meta_len(bytes, pos, (count - 1) as nat);
    }
}

} // verus!
