//! An open archive: its stream and its tree.

use crate::error::{eof, is_fault, FormatError, PakError, StreamError};
use crate::pakinterface::header::ResourceHeader;
use crate::pakinterface::image::{image, node_refusal, sources_in_range, written_len};
use crate::pakinterface::layout::{parse_archive, MAX_DEPTH};
use crate::pakinterface::node::{NodeView, ResourceNode};
use crate::pakinterface::state::refresh;
use crate::span::write_at;
use crate::util::{write_failure, BinaryStream};
use vstd::prelude::*;

verus! {

/// An open archive: the stream it was read from and the tree found in it.
///
/// The stream stays with the archive, since the bytes of the entries are
/// read from it only when they are asked for. Once it is released, the
/// tree can still be looked at, but no entry's bytes can be read and the
/// archive cannot be saved.
#[derive(Debug)]
pub struct PakInterface<T: BinaryStream> {
    input_file: Option<T>,
    root_node: ResourceNode,
}

impl<T: BinaryStream> PakInterface<T> {
    /// The tree, as a value.
    pub closed spec fn root(&self) -> NodeView {
        self.root_node@
    }

    /// The stream the archive was read from, if it is still held.
    pub closed spec fn source(&self) -> Option<T> {
        self.input_file
    }

    pub fn get_root_node_mut(&mut self) -> (r: &mut ResourceNode)
        ensures
            r@ == old(self).root(),
            final(self).root() == final(r)@,
            final(self).source() == old(self).source(),
    {
        &mut self.root_node
    }

    pub fn get_root_node(&self) -> (r: &ResourceNode)
        ensures
            r@ == self.root(),
    {
        &self.root_node
    }

    /// The tree and the stream at once, so that an entry's bytes can be
    /// read while the tree is held.
    pub fn parts(&mut self) -> (r: (&mut ResourceNode, &mut Option<T>))
        ensures
            r.0@ == old(self).root(),
            *r.1 == old(self).source(),
            final(self).root() == final(r.0)@,
            final(self).source() == *final(r.1),
    {
        (&mut self.root_node, &mut self.input_file)
    }

    /// Whether the stream is still held.
    pub fn is_live(&self) -> (r: bool)
        ensures
            r == self.source() is Some,
    {
        self.input_file.is_some()
    }

    /// Gives up the stream. The tree stays.
    pub fn release(&mut self) -> (r: Option<T>)
        ensures
            r == old(self).source(),
            final(self).source() is None,
            final(self).root() == old(self).root(),
    {
        self.input_file.take()
    }

    /// Reads the archive that `file` holds from its very start: a container
    /// header, then the root container, whose data runs to the end of the
    /// stream.
    pub fn open(file: T) -> (r: Result<PakInterface<T>, PakError>)
        ensures
            file.reliable() ==> (r is Ok <==> parse_archive(file.contents()) is Ok),
            match r {
                Ok(pak) => {
                    &&& parse_archive(file.contents()) == Ok::<NodeView, PakError>(pak.root())
                    &&& pak.source() matches Some(stream) && stream.contents() == file.contents()
                        && stream.capacity() == file.capacity() && stream.reliable()
                        == file.reliable()
                },
                Err(e) => parse_archive(file.contents()) == Err::<NodeView, PakError>(e)
                    || is_fault(file.reliable(), e),
            },
    {
        let mut file = file;
        file.seek(0)?;
        match ResourceHeader::read(&mut file)? {
            None => Err(PakError::Format(FormatError::NotAnArchive)),
            Some(header_data) => {
                if !header_data.is_node() {
                    return Err(PakError::Format(FormatError::NotAnArchive));
                }
                let mut root_node = ResourceNode::read(&mut file, header_data, MAX_DEPTH)?;
                let length = file.length()?;
                root_node.set_data_len(length - root_node.data_offset());
                Ok(PakInterface { input_file: Some(file), root_node })
            },
        }
    }

    /// Writes the archive at the cursor of `file`.
    ///
    /// The state of every container is set anew first. What has not
    /// changed is copied from the stream the archive was read from; what
    /// has changed is written anew. A tree that cannot be written, or that
    /// names a span outside the stream it was read from, is refused before
    /// a byte is written.
    pub fn save<U: BinaryStream>(&mut self, file: &mut U) -> (r: Result<(), PakError>)
        ensures
            final(self).root() == refresh(old(self).root()),
            final(self).source() is Some == old(self).source() is Some,
            old(self).source() matches Some(before) ==> {
                &&& final(self).source()->0.contents() == before.contents()
                &&& final(self).source()->0.capacity() == before.capacity()
                &&& final(self).source()->0.reliable() == before.reliable()
            },
            final(file).capacity() == old(file).capacity(),
            final(file).reliable() == old(file).reliable(),
            (old(self).source() matches Some(source) && source.reliable() && old(file).reliable()
                && node_refusal(final(self).root()) is None && sources_in_range(
                final(self).root(),
                source.contents().len(),
            ) && old(file).cursor() + written_len(final(self).root()) <= old(file).capacity())
                ==> r is Ok,
            match r {
                Ok(()) => {
                    &&& old(self).source() matches Some(source)
                    &&& node_refusal(final(self).root()) is None
                    &&& sources_in_range(final(self).root(), source.contents().len())
                    &&& old(file).cursor() + written_len(final(self).root()) <= old(
                        file,
                    ).capacity()
                    &&& final(file).contents() == write_at(
                        old(file).contents(),
                        old(file).cursor(),
                        image(final(self).root(), source.contents()),
                    )
                    &&& final(file).cursor() == old(file).cursor() + written_len(
                        final(self).root(),
                    )
                },
                Err(e) => match old(self).source() {
                    None => {
                        &&& e == PakError::Liveness
                        &&& final(file).contents() == old(file).contents()
                        &&& final(file).cursor() == old(file).cursor()
                    },
                    Some(source) => match node_refusal(final(self).root()) {
                        Some(refusal) => {
                            &&& e == PakError::Usage(refusal)
                            &&& final(file).contents() == old(file).contents()
                            &&& final(file).cursor() == old(file).cursor()
                        },
                        None => if !sources_in_range(
                            final(self).root(),
                            source.contents().len(),
                        ) {
                            &&& e == eof() || is_fault(source.reliable(), e)
                            &&& final(file).contents() == old(file).contents()
                            &&& final(file).cursor() == old(file).cursor()
                        } else {
                            ||| write_failure(
                                old(file).capacity(),
                                old(file).cursor(),
                                written_len(final(self).root()),
                                old(file).reliable(),
                                e,
                            )
                            ||| is_fault(source.reliable(), e)
                        },
                    },
                },
            },
    {
        self.root_node.update_state();
        match &mut self.input_file {
            None => Err(PakError::Liveness),
            Some(input) => {
                match self.root_node.written_len() {
                    Err(refusal) => {
                        return Err(PakError::Usage(refusal));
                    },
                    Ok(_) => {},
                }
                let source_len = input.length()?;
                if !self.root_node.sources_fit(source_len) {
                    return Err(PakError::Io(StreamError::UnexpectedEof));
                }
                self.root_node.write(input, file, source_len)?;
                Ok(())
            },
        }
    }
}

} // verus!
