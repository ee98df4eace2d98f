//! Writing a container and its entries to a stream.

use crate::error::{eof, is_fault, PakError, StreamError, UsageError};
use crate::pakinterface::header::{header_bytes, header_len, lemma_header_bytes_len};
use crate::pakinterface::image::{
    body, body_len, child_span, entries_in_range, entries_refusal, entry_in_range, entry_offset,
    entry_refusal, entry_size, head, head_len, image, is_clean, lemma_body_len,
    lemma_body_len_grows, lemma_entries_in_range, lemma_entries_refusal,
    lemma_entries_refusal_stays, lemma_head_len, lemma_image_len, lemma_names_bytes_len,
    lemma_names_len_grows, lemma_patched_image, lemma_payload_len, lemma_words_len, names_bytes,
    names_len, node_refusal, payload, payload_len, placeholder_head, real_size, sources_in_range,
    span_in_range, table_flags, table_offsets, table_patch, table_prefix, table_sizes,
    words32_bytes, words64_bytes, write_error, written_len,
};
use crate::pakinterface::layout::{DELIMITER, TABLE_MARKER, TABLE_WORD};
use crate::pakinterface::node::{
    children_view, lemma_node_children, ContentsView, ResourceChild, ResourceNode, ResourceType,
};
use crate::span::{fits, lemma_write_at_patch, readable, span, write_at, zeros};
use crate::util::{
    copy_data, emit, emit_u32, lemma_word_lengths, lemma_wrote_more, write_failure, wrote,
    BinaryStream,
};
use vstd::bytes::{spec_u32_to_le_bytes, u32_to_le_bytes, u64_to_le_bytes};
use vstd::prelude::*;

verus! {

impl ResourceNode {
    /// How many bytes writing this container emits, or why it cannot be
    /// written as it stands.
    #[verifier::loop_isolation(false)]
    pub fn written_len(&self) -> (r: Result<u64, UsageError>)
        ensures
            match r {
                Ok(len) => node_refusal(self@) is None && len == written_len(self@),
                Err(e) => node_refusal(self@) == Some(e),
            },
        decreases self,
    {
        let ghost entries = self@.children;
        proof {
            lemma_node_children(*self);
        }
        let header_len = self.header.written_len()?;
        let count = self.children.len();
        if count > u32::MAX as usize || count > (usize::MAX - 1) / 12 {
            return Err(UsageError::TooLarge);
        }
        let clean = self.is_clean();
        let mut names: u64 = 0;
        let mut body: u64 = 0;
        let mut i: usize = 0;
        while i < count
            invariant
                i <= count,
                count == self.children@.len(),
                count <= u32::MAX,
                entries == children_view(self.children@),
                entries == self@.children,
                clean == is_clean(self@),
                entries_refusal(entries, i as nat, clean) is None,
                names == names_len(entries, i as nat),
                !clean ==> body == body_len(entries, i as nat),
            decreases count - i,
        {
            let child = &self.children[i];
            proof {
                assert(entries[i as int] == child@);
                if entry_refusal(entries, i as int, clean) is Some {
                    assert(entries_refusal(entries, (i + 1) as nat, clean) == entry_refusal(
                        entries,
                        i as int,
                        clean,
                    ));
                    lemma_entries_refusal_stays(entries, (i + 1) as nat, count as nat, clean);
                }
            }
            let name_len = child.name.as_str().as_bytes().len();
            if name_len > u32::MAX as usize {
                return Err(UsageError::TooLarge);
            }
            let mut added: u128 = 0;
            match &child.contents {
                ResourceType::Link(target) => {
                    if *target >= i || self.children[*target].is_link() {
                        return Err(UsageError::BrokenLink);
                    }
                },
                ResourceType::Data => {
                    added = match &child.new_data {
                        Some(data) => data.len() as u128,
                        None => child.size as u128,
                    };
                },
                ResourceType::Resource(header) => {
                    added = match &child.new_data {
                        Some(data) => if clean {
                            0
                        } else {
                            match header.written_len() {
                                Ok(len) => len as u128 + data.len() as u128,
                                Err(e) => {
                                    return Err(e);
                                },
                            }
                        },
                        None => child.size as u128,
                    };
                },
                ResourceType::Node(node) => {
                    if clean || node.is_clean() {
                        added = child.size as u128;
                    } else {
                        match node.written_len() {
                            Ok(len) => {
                                if len > u32::MAX as u64 {
                                    return Err(UsageError::TooLarge);
                                }
                                added = len as u128;
                            },
                            Err(e) => {
                                return Err(e);
                            },
                        }
                    }
                },
            }
            proof {
                assert(entry_refusal(entries, i as int, clean) is None);
                assert(!clean ==> added == payload_len(child@));
                assert(names_len(entries, (i + 1) as nat) == names + 4 + name_len);
                assert(body_len(entries, (i + 1) as nat) == body_len(entries, i as nat)
                    + payload_len(child@));
                if names_len(entries, (i + 1) as nat) > u64::MAX || (!clean && body_len(
                    entries,
                    (i + 1) as nat,
                ) > u64::MAX) {
                    lemma_entries_refusal_stays(entries, (i + 1) as nat, count as nat, clean);
                }
            }
            if name_len as u64 + 4 > u64::MAX - names {
                return Err(UsageError::TooLarge);
            }
            if !clean && added > (u64::MAX - body) as u128 {
                return Err(UsageError::TooLarge);
            }
            names = names + 4 + name_len as u64;
            if !clean {
                body = body + added as u64;
            }
            i += 1;
        }
        let data: u64 = if clean {
            self.data_len
        } else {
            body
        };
        let total: u128 = header_len as u128 + 16 + names as u128 + 16 * (count as u128)
            + data as u128;
        if total > u64::MAX as u128 {
            return Err(UsageError::TooLarge);
        }
        Ok(total as u64)
    }
}

/// Writes the delimiter byte.
pub fn write_stream_delimiter<T: BinaryStream>(file: &mut T) -> (r: Result<(), PakError>)
    ensures
        final(file).capacity() == old(file).capacity(),
        final(file).reliable() == old(file).reliable(),
        match r {
            Ok(()) => {
                &&& old(file).cursor() + 1 <= old(file).capacity()
                &&& final(file).contents() == write_at(
                    old(file).contents(),
                    old(file).cursor(),
                    seq![DELIMITER],
                )
                &&& final(file).cursor() == old(file).cursor() + 1
            },
            Err(e) => write_failure(
                old(file).capacity(),
                old(file).cursor(),
                1,
                old(file).reliable(),
                e,
            ),
        },
{
    file.write_u8(DELIMITER)
}

/// Copies the `size` bytes that stand at `base + offset` in `input` to the
/// cursor of `output`. A span that does not lie inside the source is
/// refused before anything is copied.
fn copy_span<S: BinaryStream, T: BinaryStream>(
    input: &mut S,
    output: &mut T,
    base: u64,
    offset: u64,
    size: u64,
    source_len: u64,
) -> (r: Result<(), PakError>)
    requires
        source_len == old(input).contents().len(),
    ensures
        final(input).contents() == old(input).contents(),
        final(input).capacity() == old(input).capacity(),
        final(input).reliable() == old(input).reliable(),
        final(output).capacity() == old(output).capacity(),
        final(output).reliable() == old(output).reliable(),
        match r {
            Ok(()) => {
                &&& readable(source_len as nat, (base + offset) as nat, size as nat)
                &&& fits(old(output).capacity(), old(output).cursor(), size as nat)
                &&& final(output).cursor() == old(output).cursor() + size
                &&& final(output).contents() == write_at(
                    old(output).contents(),
                    old(output).cursor(),
                    span(old(input).contents(), (base + offset) as nat, size as nat),
                )
            },
            Err(e) => {
                ||| e == eof() && !readable(source_len as nat, (base + offset) as nat, size as nat)
                ||| write_failure(
                    old(output).capacity(),
                    old(output).cursor(),
                    size as nat,
                    old(output).reliable(),
                    e,
                )
                ||| is_fault(old(input).reliable(), e)
            },
        },
{
    if size == 0 {
        proof {
            assert(span(input.contents(), (base + offset) as nat, 0) =~= Seq::<u8>::empty());
        }
        return Ok(());
    }
    if base as u128 + offset as u128 + size as u128 > source_len as u128 {
        return Err(PakError::Io(StreamError::UnexpectedEof));
    }
    input.seek(base + offset)?;
    copy_data(input, output, size)
}

/// Copies the span of `input` that `child` takes to the cursor of `output`.
fn copy_child_data<S: BinaryStream, T: BinaryStream>(
    input: &mut S,
    output: &mut T,
    child: &ResourceChild,
    source_len: u64,
) -> (r: Result<(), PakError>)
    requires
        source_len == old(input).contents().len(),
    ensures
        final(input).contents() == old(input).contents(),
        final(input).capacity() == old(input).capacity(),
        final(input).reliable() == old(input).reliable(),
        final(output).capacity() == old(output).capacity(),
        final(output).reliable() == old(output).reliable(),
        match r {
            Ok(()) => {
                &&& span_in_range(child@, source_len as nat)
                &&& fits(old(output).capacity(), old(output).cursor(), child@.size as nat)
                &&& final(output).cursor() == old(output).cursor() + child@.size
                &&& final(output).contents() == write_at(
                    old(output).contents(),
                    old(output).cursor(),
                    child_span(child@, old(input).contents()),
                )
            },
            Err(e) => {
                ||| e == eof() && !span_in_range(child@, source_len as nat)
                ||| write_failure(
                    old(output).capacity(),
                    old(output).cursor(),
                    child@.size as nat,
                    old(output).reliable(),
                    e,
                )
                ||| is_fault(old(input).reliable(), e)
            },
        },
{
    copy_span(input, output, child.node_base, child.offset, child.size as u64, source_len)
}

/// The offsets, a delimiter and the sizes as they stand in a table.
fn encode_patch(offsets: &Vec<u64>, sizes: &Vec<u32>) -> (r: Vec<u8>)
    requires
        offsets@.len() == sizes@.len(),
    ensures
        r@ == words64_bytes(offsets@, offsets@.len()) + seq![DELIMITER] + words32_bytes(
            sizes@,
            sizes@.len(),
        ),
{
    let mut patch: Vec<u8> = Vec::new();
    let mut i: usize = 0;
    while i < offsets.len()
        invariant
            i <= offsets@.len(),
            patch@ == words64_bytes(offsets@, i as nat),
        decreases offsets@.len() - i,
    {
        let word = u64_to_le_bytes(offsets[i]);
        patch.extend_from_slice(word.as_slice());
        i += 1;
    }
    patch.push(DELIMITER);
    let ghost front = words64_bytes(offsets@, offsets@.len()) + seq![DELIMITER];
    assert(patch@ =~= front);
    let mut j: usize = 0;
    proof {
        assert(front + words32_bytes(sizes@, 0) =~= front);
    }
    while j < sizes.len()
        invariant
            j <= sizes@.len(),
            front == words64_bytes(offsets@, offsets@.len()) + seq![DELIMITER],
            patch@ == front + words32_bytes(sizes@, j as nat),
        decreases sizes@.len() - j,
    {
        let word = u32_to_le_bytes(sizes[j]);
        patch.extend_from_slice(word.as_slice());
        proof {
            assert(patch@ =~= front + words32_bytes(sizes@, (j + 1) as nat));
        }
        j += 1;
    }
    patch
}

impl ResourceNode {
    /// Writes the names of the entries behind the bytes written so far.
    fn write_names<T: BinaryStream>(
        &self,
        file: &mut T,
        Ghost(origin): Ghost<Seq<u8>>,
        Ghost(start): Ghost<nat>,
        Ghost(sofar): Ghost<Seq<u8>>,
    ) -> (r: Result<(), PakError>)
        requires
            wrote(old(file), origin, start, sofar),
            self@.children.len() <= u32::MAX,
            entries_refusal(self@.children, self@.children.len(), is_clean(self@)) is None,
        ensures
            final(file).capacity() == old(file).capacity(),
            final(file).reliable() == old(file).reliable(),
            match r {
                Ok(()) => {
                    &&& wrote(
                        final(file),
                        origin,
                        start,
                        sofar + names_bytes(self@.children, self@.children.len()),
                    )
                    &&& fits(
                        old(file).capacity(),
                        start + sofar.len(),
                        names_len(self@.children, self@.children.len()),
                    )
                },
                Err(e) => write_failure(
                    old(file).capacity(),
                    start + sofar.len(),
                    names_len(self@.children, self@.children.len()),
                    old(file).reliable(),
                    e,
                ),
            },
    {
        let ghost entries = self@.children;
        let ghost clean = is_clean(self@);
        proof {
            lemma_node_children(*self);
            assert(sofar + names_bytes(entries, 0) =~= sofar);
        }
        let mut i: usize = 0;
        while i < self.children.len()
            invariant
                i <= self.children@.len(),
                entries == children_view(self.children@),
                entries == self@.children,
                clean == is_clean(self@),
                entries_refusal(entries, entries.len(), clean) is None,
                file.capacity() == old(file).capacity(),
                file.reliable() == old(file).reliable(),
                wrote(file, origin, start, sofar + names_bytes(entries, i as nat)),
                fits(file.capacity(), start + sofar.len(), names_len(entries, i as nat)),
            decreases self.children@.len() - i,
        {
            let child = &self.children[i];
            let name = child.name.as_str().as_bytes();
            let ghost done = sofar + names_bytes(entries, i as nat);
            proof {
                assert(entries[i as int] == child@);
                lemma_entries_refusal(entries, entries.len(), clean, i as int);
                lemma_names_bytes_len(entries, i as nat);
                lemma_names_len_grows(entries, (i + 1) as nat, entries.len());
                lemma_word_lengths(name@.len() as u32, 0, 0);
                assert(names_len(entries, (i + 1) as nat) == names_len(entries, i as nat) + 4
                    + name@.len());
            }
            emit_u32(file, name.len() as u32, Ghost(origin), Ghost(start), Ghost(done))?;
            emit(
                file,
                name,
                Ghost(origin),
                Ghost(start),
                Ghost(done + spec_u32_to_le_bytes(name@.len() as u32)),
            )?;
            proof {
                assert(done + spec_u32_to_le_bytes(name@.len() as u32) + name@ =~= sofar
                    + names_bytes(entries, (i + 1) as nat));
            }
            i += 1;
        }
        Ok(())
    }

    /// Writes the link flags of the entries behind the bytes written so far.
    fn write_flags<T: BinaryStream>(
        &self,
        file: &mut T,
        Ghost(origin): Ghost<Seq<u8>>,
        Ghost(start): Ghost<nat>,
        Ghost(sofar): Ghost<Seq<u8>>,
    ) -> (r: Result<(), PakError>)
        requires
            wrote(old(file), origin, start, sofar),
        ensures
            final(file).capacity() == old(file).capacity(),
            final(file).reliable() == old(file).reliable(),
            match r {
                Ok(()) => {
                    &&& wrote(
                        final(file),
                        origin,
                        start,
                        sofar + words32_bytes(
                            table_flags(self@.children),
                            self@.children.len(),
                        ),
                    )
                    &&& fits(
                        old(file).capacity(),
                        start + sofar.len(),
                        (4 * self@.children.len()) as nat,
                    )
                },
                Err(e) => write_failure(
                    old(file).capacity(),
                    start + sofar.len(),
                    (4 * self@.children.len()) as nat,
                    old(file).reliable(),
                    e,
                ),
            },
    {
        let ghost entries = self@.children;
        let ghost flags = table_flags(entries);
        proof {
            lemma_node_children(*self);
            assert(sofar + words32_bytes(flags, 0) =~= sofar);
        }
        let mut i: usize = 0;
        while i < self.children.len()
            invariant
                i <= self.children@.len(),
                entries == children_view(self.children@),
                entries == self@.children,
                flags == table_flags(entries),
                file.capacity() == old(file).capacity(),
                file.reliable() == old(file).reliable(),
                wrote(file, origin, start, sofar + words32_bytes(flags, i as nat)),
                fits(file.capacity(), start + sofar.len(), (4 * i) as nat),
            decreases self.children@.len() - i,
        {
            let flag: u32 = if self.children[i].is_link() {
                1
            } else {
                0
            };
            let ghost done = sofar + words32_bytes(flags, i as nat);
            proof {
                assert(entries[i as int] == self.children@[i as int]@);
                assert(flags[i as int] == flag);
                lemma_words_len(Seq::empty(), flags, i as nat);
            }
            emit_u32(file, flag, Ghost(origin), Ghost(start), Ghost(done))?;
            proof {
                assert(done + spec_u32_to_le_bytes(flag) =~= sofar + words32_bytes(
                    flags,
                    (i + 1) as nat,
                ));
            }
            i += 1;
        }
        Ok(())
    }

    /// Writes the header and the child table, with zeros in place of the
    /// offsets and sizes, and gives the position of that placeholder.
    fn write_head<T: BinaryStream>(&self, file: &mut T) -> (r: Result<u64, PakError>)
        requires
            node_refusal(self@) is None,
        ensures
            final(file).capacity() == old(file).capacity(),
            final(file).reliable() == old(file).reliable(),
            match r {
                Ok(section) => {
                    &&& wrote(
                        final(file),
                        old(file).contents(),
                        old(file).cursor(),
                        placeholder_head(self@),
                    )
                    &&& section == old(file).cursor() + table_prefix(self@).len()
                    &&& old(file).cursor() + head_len(self@) <= old(file).capacity()
                },
                Err(e) => write_failure(
                    old(file).capacity(),
                    old(file).cursor(),
                    head_len(self@),
                    old(file).reliable(),
                    e,
                ),
            },
    {
        let ghost origin = file.contents();
        let ghost start = file.cursor();
        let ghost node = self@;
        let count = self.children.len();
        proof {
            lemma_node_children(*self);
            lemma_head_len(node);
            lemma_header_bytes_len(node.header);
            lemma_words_len(table_offsets(node), table_flags(node.children), count as nat);
        }
        self.header.write(file)?;
        let ghost mut sofar = header_bytes(node.header);
        emit_u32(file, TABLE_MARKER, Ghost(origin), Ghost(start), Ghost(sofar))?;
        proof {
            sofar = sofar + spec_u32_to_le_bytes(TABLE_MARKER);
        }
        emit_u32(file, count as u32, Ghost(origin), Ghost(start), Ghost(sofar))?;
        proof {
            sofar = sofar + spec_u32_to_le_bytes(count as u32);
        }
        emit_u32(file, TABLE_WORD, Ghost(origin), Ghost(start), Ghost(sofar))?;
        proof {
            sofar = sofar + spec_u32_to_le_bytes(TABLE_WORD);
        }
        let ghost before_names = *file;
        write_stream_delimiter(file)?;
        proof {
            lemma_wrote_more(&before_names, file, origin, start, sofar, seq![DELIMITER]);
            sofar = sofar + seq![DELIMITER];
        }
        self.write_names(file, Ghost(origin), Ghost(start), Ghost(sofar))?;
        proof {
            sofar = sofar + names_bytes(node.children, count as nat);
        }
        let ghost before_offsets = *file;
        write_stream_delimiter(file)?;
        proof {
            lemma_wrote_more(&before_offsets, file, origin, start, sofar, seq![DELIMITER]);
            sofar = sofar + seq![DELIMITER];
            assert(sofar =~= table_prefix(node));
        }
        let section = file.position()?;
        let placeholder_len: usize = 12 * count + 1;
        let placeholder: Vec<u8> = vec![0u8; placeholder_len];
        proof {
            assert(placeholder@ =~= zeros((12 * count + 1) as nat));
        }
        emit(file, placeholder.as_slice(), Ghost(origin), Ghost(start), Ghost(sofar))?;
        proof {
            sofar = sofar + placeholder@;
        }
        let ghost before_flags = *file;
        write_stream_delimiter(file)?;
        proof {
            lemma_wrote_more(&before_flags, file, origin, start, sofar, seq![DELIMITER]);
            sofar = sofar + seq![DELIMITER];
        }
        self.write_flags(file, Ghost(origin), Ghost(start), Ghost(sofar))?;
        proof {
            sofar = sofar + words32_bytes(table_flags(node.children), count as nat);
            assert(sofar =~= placeholder_head(node));
        }
        Ok(section)
    }
}

impl ResourceNode {
    /// Writes the bytes of the real entry `i` behind the bytes written so
    /// far, and gives the size that the table is to hold for it.
    fn write_entry<S: BinaryStream, T: BinaryStream>(
        &self,
        i: usize,
        input: &mut S,
        file: &mut T,
        source_len: u64,
        Ghost(origin): Ghost<Seq<u8>>,
        Ghost(start): Ghost<nat>,
        Ghost(sofar): Ghost<Seq<u8>>,
    ) -> (r: Result<u32, PakError>)
        requires
            i < self@.children.len(),
            !(self@.children[i as int].contents is Link),
            entry_refusal(self@.children, i as int, false) is None,
            wrote(old(file), origin, start, sofar),
            source_len == old(input).contents().len(),
        ensures
            final(input).contents() == old(input).contents(),
            final(input).capacity() == old(input).capacity(),
            final(input).reliable() == old(input).reliable(),
            final(file).capacity() == old(file).capacity(),
            final(file).reliable() == old(file).reliable(),
            match r {
                Ok(size) => {
                    &&& wrote(
                        final(file),
                        origin,
                        start,
                        sofar + payload(self@.children[i as int], old(input).contents()),
                    )
                    &&& size == real_size(self@.children[i as int])
                    &&& entry_in_range(self@.children[i as int], source_len as nat)
                    &&& fits(
                        old(file).capacity(),
                        start + sofar.len(),
                        payload_len(self@.children[i as int]),
                    )
                },
                Err(e) => {
                    ||| e == eof() && !entry_in_range(self@.children[i as int], source_len as nat)
                    ||| write_failure(
                        old(file).capacity(),
                        start + sofar.len(),
                        payload_len(self@.children[i as int]),
                        old(file).reliable(),
                        e,
                    )
                    ||| is_fault(old(input).reliable(), e)
                },
            },
        decreases self, 0nat,
    {
        proof {
            lemma_node_children(*self);
        }
        let child = &self.children[i];
        let ghost entry = self@.children[i as int];
        let ghost source = input.contents();
        let ghost before = *file;
        proof {
            assert(entry == child@);
            lemma_payload_len(self@.children, i as int, source);
        }
        match &child.contents {
            ResourceType::Link(_) => Ok(child.size),
            ResourceType::Data => {
                match &child.new_data {
                    Some(data) => {
                        emit(file, data.as_slice(), Ghost(origin), Ghost(start), Ghost(sofar))?;
                    },
                    None => {
                        copy_child_data(input, file, child, source_len)?;
                        proof {
                            lemma_wrote_more(
                                &before,
                                file,
                                origin,
                                start,
                                sofar,
                                child_span(entry, source),
                            );
                        }
                    },
                }
                Ok(child.size)
            },
            ResourceType::Resource(header) => {
                match &child.new_data {
                    Some(data) => {
                        proof {
                            lemma_header_bytes_len(header@);
                        }
                        header.write(file)?;
                        proof {
                            lemma_wrote_more(
                                &before,
                                file,
                                origin,
                                start,
                                sofar,
                                header_bytes(header@),
                            );
                        }
                        emit(
                            file,
                            data.as_slice(),
                            Ghost(origin),
                            Ghost(start),
                            Ghost(sofar + header_bytes(header@)),
                        )?;
                        proof {
                            assert(sofar + header_bytes(header@) + data@ =~= sofar + (header_bytes(
                                header@,
                            ) + data@));
                        }
                    },
                    None => {
                        copy_child_data(input, file, child, source_len)?;
                        proof {
                            lemma_wrote_more(
                                &before,
                                file,
                                origin,
                                start,
                                sofar,
                                child_span(entry, source),
                            );
                        }
                    },
                }
                Ok(child.size)
            },
            ResourceType::Node(node) => {
                if !node.is_clean() {
                    let written = node.write(input, file, source_len)?;
                    proof {
                        lemma_image_len(node@, source);
                        lemma_wrote_more(&before, file, origin, start, sofar, image(node@, source));
                    }
                    Ok(written as u32)
                } else {
                    copy_child_data(input, file, child, source_len)?;
                    proof {
                        lemma_wrote_more(
                            &before,
                            file,
                            origin,
                            start,
                            sofar,
                            child_span(entry, source),
                        );
                    }
                    Ok(child.size)
                }
            },
        }
    }

    /// Writes the bytes of every real entry, in table order, behind the
    /// placeholder head, and gives the offsets and sizes that the table is
    /// to hold.
    #[verifier::loop_isolation(false)]
    fn write_entries<S: BinaryStream, T: BinaryStream>(
        &self,
        input: &mut S,
        file: &mut T,
        source_len: u64,
        offset_start: u64,
        Ghost(origin): Ghost<Seq<u8>>,
    ) -> (r: Result<(Vec<u64>, Vec<u32>), PakError>)
        requires
            node_refusal(self@) is None,
            !is_clean(self@),
            wrote(old(file), origin, offset_start as nat, placeholder_head(self@)),
            offset_start + head_len(self@) <= old(file).capacity(),
            source_len == old(input).contents().len(),
        ensures
            final(input).contents() == old(input).contents(),
            final(input).capacity() == old(input).capacity(),
            final(input).reliable() == old(input).reliable(),
            final(file).capacity() == old(file).capacity(),
            final(file).reliable() == old(file).reliable(),
            match r {
                Ok((offsets, sizes)) => {
                    &&& wrote(
                        final(file),
                        origin,
                        offset_start as nat,
                        placeholder_head(self@) + body(
                            self@.children,
                            old(input).contents(),
                            self@.children.len(),
                        ),
                    )
                    &&& offsets@ == table_offsets(self@)
                    &&& sizes@ == table_sizes(self@)
                    &&& sources_in_range(self@, source_len as nat)
                    &&& offset_start + written_len(self@) <= old(file).capacity()
                },
                Err(e) => write_error(
                    self@,
                    source_len as nat,
                    old(input).reliable(),
                    old(file).capacity(),
                    offset_start as nat,
                    old(file).reliable(),
                    e,
                ),
            },
        decreases self, 1nat,
    {
        let ghost node = self@;
        let ghost entries = self@.children;
        let ghost source = input.contents();
        let ghost start = offset_start as nat;
        let ghost first = placeholder_head(node);
        let count = self.children.len();
        proof {
            lemma_node_children(*self);
            lemma_head_len(node);
            assert(first + body(entries, source, 0) =~= first);
            assert(first.len() == head_len(node));
        }
        let mut offsets: Vec<u64> = Vec::new();
        let mut sizes: Vec<u32> = Vec::new();
        let mut i: usize = 0;
        while i < count
            invariant
                i <= count,
                count == entries.len(),
                offsets@.len() == i,
                sizes@.len() == i,
                input.contents() == source,
                input.capacity() == old(input).capacity(),
                input.reliable() == old(input).reliable(),
                file.capacity() == old(file).capacity(),
                file.reliable() == old(file).reliable(),
                wrote(file, origin, start, first + body(entries, source, i as nat)),
                entries_in_range(entries, i as nat, source_len as nat),
                start + head_len(node) + body_len(entries, i as nat) <= file.capacity(),
                forall|j: int| 0 <= j < i ==> offsets@[j] == entry_offset(node, j),
                forall|j: int| 0 <= j < i ==> sizes@[j] == entry_size(node, j),
            decreases count - i,
        {
            let ghost entry = entries[i as int];
            let ghost done = first + body(entries, source, i as nat);
            proof {
                assert(entry == self.children@[i as int]@);
                lemma_entries_refusal(entries, count as nat, false, i as int);
                lemma_body_len(entries, source, i as nat);
                lemma_body_len_grows(entries, (i + 1) as nat, count as nat);
                assert(body(entries, source, (i + 1) as nat) == body(entries, source, i as nat)
                    + payload(entry, source));
                assert(body_len(entries, (i + 1) as nat) == body_len(entries, i as nat)
                    + payload_len(entry));
                assert(entries_in_range(entries, (i + 1) as nat, source_len as nat) == (
                entries_in_range(entries, i as nat, source_len as nat) && entry_in_range(
                    entry,
                    source_len as nat,
                )));
            }
            let here = file.position()? - offset_start;
            match &self.children[i].contents {
                ResourceType::Link(target) => {
                    let target_offset = offsets[*target];
                    let target_size = sizes[*target];
                    offsets.push(target_offset);
                    sizes.push(target_size);
                    proof {
                        assert(done + payload(entry, source) =~= done);
                        assert(entry.contents == ContentsView::Link(*target));
                        assert(!(entries[*target as int].contents is Link));
                        assert(target_offset == entry_offset(node, *target as int));
                        assert(target_size == entry_size(node, *target as int));
                        assert(entry_offset(node, i as int) == entry_offset(
                            node,
                            *target as int,
                        ));
                        assert(entry_size(node, i as int) == entry_size(node, *target as int));
                    }
                },
                _ => {
                    match self.write_entry(
                        i,
                        input,
                        file,
                        source_len,
                        Ghost(origin),
                        Ghost(start),
                        Ghost(done),
                    ) {
                        Ok(size) => {
                            offsets.push(here);
                            sizes.push(size);
                            proof {
                                assert(done.len() == head_len(node) + body_len(
                                    entries,
                                    i as nat,
                                ));
                                assert(here == entry_offset(node, i as int));
                                assert(size == entry_size(node, i as int));
                            }
                        },
                        Err(e) => {
                            proof {
                                if e == eof() && !entry_in_range(entry, source_len as nat) {
                                    if entries_in_range(entries, count as nat, source_len as nat) {
                                        lemma_entries_in_range(
                                            entries,
                                            count as nat,
                                            source_len as nat,
                                            i as int,
                                        );
                                    }
                                }
                            }
                            return Err(e);
                        },
                    }
                    proof {
                        assert(done + payload(entry, source) =~= first + body(
                            entries,
                            source,
                            (i + 1) as nat,
                        ));
                    }
                },
            }
            i += 1;
        }
        proof {
            assert(offsets@ =~= table_offsets(node));
            assert(sizes@ =~= table_sizes(node));
        }
        Ok((offsets, sizes))
    }

    /// The offsets and sizes of the entries as they stand.
    fn old_table(&self) -> (r: (Vec<u64>, Vec<u32>))
        requires
            is_clean(self@),
        ensures
            r.0@ == table_offsets(self@),
            r.1@ == table_sizes(self@),
    {
        proof {
            lemma_node_children(*self);
        }
        let mut offsets: Vec<u64> = Vec::new();
        let mut sizes: Vec<u32> = Vec::new();
        let mut i: usize = 0;
        while i < self.children.len()
            invariant
                i <= self.children@.len(),
                is_clean(self@),
                self@.children == children_view(self.children@),
                offsets@.len() == i,
                sizes@.len() == i,
                forall|j: int| 0 <= j < i ==> offsets@[j] == entry_offset(self@, j),
                forall|j: int| 0 <= j < i ==> sizes@[j] == entry_size(self@, j),
            decreases self.children@.len() - i,
        {
            proof {
                assert(self@.children[i as int] == self.children@[i as int]@);
            }
            offsets.push(self.children[i].offset);
            sizes.push(self.children[i].size);
            i += 1;
        }
        proof {
            assert(offsets@ =~= table_offsets(self@));
            assert(sizes@ =~= table_sizes(self@));
        }
        (offsets, sizes)
    }

    /// Writes the container at the cursor of `file` and gives the number of
    /// bytes written.
    ///
    /// The header and the child table come first, with a placeholder for
    /// the offsets and sizes. A clean container's data is then copied from
    /// `input` as it stands; otherwise each real entry is written in table
    /// order: its replacement where one was set, a nested container that is
    /// not clean by writing it in turn, anything else by copying its span
    /// of `input`. At the end the offsets and sizes are written over the
    /// placeholder, and the cursor is put behind the last byte.
    pub fn write<S: BinaryStream, T: BinaryStream>(
        &self,
        input: &mut S,
        file: &mut T,
        source_len: u64,
    ) -> (r: Result<u64, PakError>)
        requires
            node_refusal(self@) is None,
            source_len == old(input).contents().len(),
        ensures
            final(input).contents() == old(input).contents(),
            final(input).capacity() == old(input).capacity(),
            final(input).reliable() == old(input).reliable(),
            final(file).capacity() == old(file).capacity(),
            final(file).reliable() == old(file).reliable(),
            match r {
                Ok(written) => {
                    &&& written == written_len(self@)
                    &&& sources_in_range(self@, source_len as nat)
                    &&& old(file).cursor() + written_len(self@) <= old(file).capacity()
                    &&& final(file).contents() == write_at(
                        old(file).contents(),
                        old(file).cursor(),
                        image(self@, old(input).contents()),
                    )
                    &&& final(file).cursor() == old(file).cursor() + written_len(self@)
                },
                Err(e) => write_error(
                    self@,
                    source_len as nat,
                    old(input).reliable(),
                    old(file).capacity(),
                    old(file).cursor(),
                    old(file).reliable(),
                    e,
                ),
            },
        decreases self, 2nat,
    {
        let ghost node = self@;
        let ghost origin = file.contents();
        let ghost start = file.cursor();
        let ghost source = input.contents();
        proof {
            lemma_head_len(node);
            lemma_image_len(node, source);
        }
        let offset_start = file.position()?;
        let section = self.write_head(file)?;
        let ghost first = placeholder_head(node);
        let ghost rest = if is_clean(node) {
            span(source, node.data_offset as nat, node.data_len as nat)
        } else {
            body(node.children, source, node.children.len())
        };
        let table = if self.is_clean() {
            let ghost before = *file;
            copy_span(input, file, self.data_offset, 0, self.data_len, source_len)?;
            proof {
                lemma_wrote_more(&before, file, origin, start, first, rest);
            }
            self.old_table()
        } else {
            self.write_entries(input, file, source_len, offset_start, Ghost(origin))?
        };
        let end = file.position()?;
        file.seek(section)?;
        let patch = encode_patch(&table.0, &table.1);
        proof {
            lemma_patched_image(node, rest);
            lemma_write_at_patch(
                origin,
                start,
                first + rest,
                table_prefix(node).len(),
                table_patch(node),
            );
            assert(patch@ == table_patch(node));
        }
        file.write_bytes(patch.as_slice())?;
        file.seek(end)?;
        Ok(end - offset_start)
    }
}


impl ResourceNode {
    /// Whether every span of the source that writing this container reads
    /// lies inside a source of `source_len` bytes.
    pub fn sources_fit(&self, source_len: u64) -> (r: bool)
        ensures
            r == sources_in_range(self@, source_len as nat),
        decreases self,
    {
        proof {
            lemma_node_children(*self);
        }
        if self.is_clean() {
            return self.data_len == 0 || self.data_offset as u128 + self.data_len as u128
                <= source_len as u128;
        }
        let ghost entries = self@.children;
        let mut i: usize = 0;
        while i < self.children.len()
            invariant
                i <= self.children@.len(),
                entries == self@.children,
                entries == children_view(self.children@),
                !is_clean(self@),
                entries_in_range(entries, i as nat, source_len as nat),
            decreases self.children@.len() - i,
        {
            let child = &self.children[i];
            proof {
                assert(entries[i as int] == child@);
                assert(entries_in_range(entries, (i + 1) as nat, source_len as nat) == (
                entries_in_range(entries, i as nat, source_len as nat) && entry_in_range(
                    child@,
                    source_len as nat,
                )));
            }
            let copied = child.size == 0 || child.node_base as u128 + child.offset as u128
                + child.size as u128 <= source_len as u128;
            let fits = match &child.contents {
                ResourceType::Link(_) => true,
                ResourceType::Data => child.new_data.is_some() || copied,
                ResourceType::Resource(_) => child.new_data.is_some() || copied,
                ResourceType::Node(node) => if node.is_clean() {
                    copied
                } else {
                    node.sources_fit(source_len)
                },
            };
            assert(fits == entry_in_range(child@, source_len as nat));
            if !fits {
                proof {
                    if entries_in_range(entries, entries.len(), source_len as nat) {
                        lemma_entries_in_range(
                            entries,
                            entries.len(),
                            source_len as nat,
                            i as int,
                        );
                    }
                }
                return false;
            }
            i += 1;
        }
        true
    }
}

} // verus!
