//! Readers for the data of one file of an asset pack.
use crate::compression::{decompress, lz4_content};
use crate::errors::{IoErrorKind, ReadError, ReadErrorView, ReadResult, ReadStep, ReadStepView};
use crate::flags::{has_flag, is_compressed, COMPRESSED};
use crate::format::{FileMeta, MetaView};
use crate::pack_spec::file_bytes;
use crate::reading::file_slice;
use vstd::prelude::*;
use vstd::slice::{slice_subrange, slice_to_vec};

verus! {

/// Where a seek counts from, as in `std::io::SeekFrom`.
#[derive(Clone, Copy, Debug, PartialEq, Eq)]
pub enum SeekFrom {
    /// From the start of the file.
    Start(u64),
    /// From the end of the file; may reach past it.
    End(i64),
    /// From the current position.
    Current(i64),
}

/// The position a seek lands on, for a file whose end is at `end` and a reader at
/// `pos`; an error of kind [`IoErrorKind::InvalidInput`] when it would land before
/// the start of the file or beyond what 64 bits hold.
pub open spec fn spec_seek(end: nat, pos: nat, from: SeekFrom) -> Result<nat, IoErrorKind> {
    let target: int = match from {
        SeekFrom::Start(p) => p as int,
        SeekFrom::End(k) => end + k,
        SeekFrom::Current(k) => pos + k,
    };
    if target < 0 || target > u64::MAX {
        Err(IoErrorKind::InvalidInput)
    } else {
        Ok(target as nat)
    }
}

/// The bytes that a read of at most `max` bytes at position `pos` of `contents` yields.
pub open spec fn spec_read(contents: Seq<u8>, pos: nat, max: nat) -> Seq<u8> {
    let lo = if pos < contents.len() { pos as int } else { contents.len() as int };
    let hi = if pos + max < contents.len() { (pos + max) as int } else { contents.len() as int };
    contents.subrange(lo, hi)
}

/// The position reached by a seek, computed without overflow.
fn seek_target(end: u64, pos: u64, from: SeekFrom) -> (r: Result<u64, IoErrorKind>)
    ensures
        match spec_seek(end as nat, pos as nat, from) {
            Ok(p) => r == Ok::<u64, IoErrorKind>(p as u64),
            Err(k) => r == Err::<u64, IoErrorKind>(k),
        },
{
    let target: i128 = match from {
        SeekFrom::Start(p) => p as i128,
        SeekFrom::End(k) => end as i128 + k as i128,
        SeekFrom::Current(k) => pos as i128 + k as i128,
    };
    if target < 0 || target > u64::MAX as i128 {
        Err(IoErrorKind::InvalidInput)
    } else {
        Ok(target as u64)
    }
}

/// A reader of the data of a file as it is stored in the pack.
///
/// This does not account for compressed files: it reads the compressed data. For
/// most uses, take an [`AssetFileReader`] from
/// [`AssetPackReader::get_file_reader`](crate::pack_reader::AssetPackReader::get_file_reader).
pub struct DirectFileReader<'r> {
    pack_file: &'r [u8],
    file_meta: FileMeta,
    seek_pos: u64,
}

impl<'r> DirectFileReader<'r> {
    /// The bytes of the pack this reader reads from.
    pub closed spec fn pack(&self) -> Seq<u8> {
        self.pack_file@
    }

    /// The metadata of the file this reader reads.
    pub closed spec fn meta(&self) -> FileMeta {
        self.file_meta
    }

    /// The position of the reader in the file.
    pub closed spec fn position(&self) -> nat {
        self.seek_pos as nat
    }

    /// The data of the file: the bytes of its range that the pack holds.
    pub open spec fn contents(&self) -> Seq<u8> {
        file_bytes(self.pack(), self.meta().offset as nat, self.meta().size as nat)
    }

    /// Creates a reader for the file described by `meta` (whose offset counts from
    /// the start of `pack`), positioned at the start of the file.
    pub fn new(pack: &'r [u8], meta: FileMeta) -> (r: Self)
        ensures
            r.pack() == pack@,
            r.meta() == meta,
            r.position() == 0,
    {
        DirectFileReader { pack_file: pack, file_meta: meta, seek_pos: 0 }
    }

    /// Reads at most `max` bytes of the file from the current position and moves
    /// past them. Nothing is read at or past the end of the file.
    pub fn read(&mut self, max: usize) -> (r: Vec<u8>)
        ensures
            r@ == spec_read(old(self).contents(), old(self).position(), max as nat),
            final(self).position() == old(self).position() + r@.len(),
            final(self).pack() == old(self).pack(),
            final(self).meta() == old(self).meta(),
    {
        if self.seek_pos > self.file_meta.size {
            return Vec::new();
        }
        let max_read_length = self.file_meta.size - self.seek_pos;
        let read_length: u64 = if (max as u64) < max_read_length { max as u64 } else { max_read_length };
        let start = self.file_meta.offset as u128 + self.seek_pos as u128;
        let bytes: &[u8] = if start > u64::MAX as u128 {
            slice_subrange(self.pack_file, self.pack_file.len(), self.pack_file.len())
        } else {
            file_slice(self.pack_file, start as u64, read_length)
        };
        let out = slice_to_vec(bytes);
        proof {
            let c = old(self).contents();
            let pos = old(self).position();
            assert(out@ =~= spec_read(c, pos, max as nat));
        }
        self.seek_pos = self.seek_pos + out.len() as u64;
        out
    }

    /// Seeks within the file; returns the new position, counted from the start of
    /// the file.
    pub fn seek(&mut self, pos: SeekFrom) -> (r: Result<u64, IoErrorKind>)
        ensures
            match spec_seek(old(self).meta().size as nat, old(self).position(), pos) {
                Ok(p) => r == Ok::<u64, IoErrorKind>(p as u64) && final(self).position() == p,
                Err(k) => r == Err::<u64, IoErrorKind>(k) && final(self).position() == old(
                    self,
                ).position(),
            },
            final(self).pack() == old(self).pack(),
            final(self).meta() == old(self).meta(),
    {
        match seek_target(self.file_meta.size, self.seek_pos, pos) {
            Ok(p) => {
                self.seek_pos = p;
                Ok(p)
            },
            Err(k) => Err(k),
        }
    }

    /// Reads the file from the current position to its end.
    pub fn read_to_end(&mut self) -> (r: Vec<u8>)
        ensures
            r@ == spec_read(old(self).contents(), old(self).position(), old(self).contents().len()),
            final(self).pack() == old(self).pack(),
            final(self).meta() == old(self).meta(),
    {
        let len = file_slice(self.pack_file, self.file_meta.offset, self.file_meta.size).len();
        self.read(len)
    }
}

/// A reader of data held in memory, such as a decompressed file.
pub struct MemoryFileReader {
    data: Vec<u8>,
    pos: u64,
}

impl MemoryFileReader {
    /// The data this reader reads.
    pub closed spec fn contents(&self) -> Seq<u8> {
        self.data@
    }

    /// The position of the reader.
    pub closed spec fn position(&self) -> nat {
        self.pos as nat
    }

    /// Creates a reader of `data`, positioned at its start.
    pub fn new(data: Vec<u8>) -> (r: Self)
        ensures
            r.contents() == data@,
            r.position() == 0,
    {
        MemoryFileReader { data, pos: 0 }
    }

    /// Reads at most `max` bytes from the current position and moves past them.
    pub fn read(&mut self, max: usize) -> (r: Vec<u8>)
        ensures
            r@ == spec_read(old(self).contents(), old(self).position(), max as nat),
            final(self).position() == old(self).position() + r@.len(),
            final(self).contents() == old(self).contents(),
    {
        let n = self.data.len();
        let lo: usize = if (self.pos as u128) < (n as u128) { self.pos as usize } else { n };
        let hi: usize = if (self.pos as u128) + (max as u128) < (n as u128) { (self.pos as usize) + max } else { n };
        let out = slice_to_vec(slice_subrange(self.data.as_slice(), lo, hi));
        self.pos = self.pos + out.len() as u64;
        out
    }

    /// Seeks within the data; returns the new position.
    pub fn seek(&mut self, pos: SeekFrom) -> (r: Result<u64, IoErrorKind>)
        ensures
            match spec_seek(old(self).contents().len(), old(self).position(), pos) {
                Ok(p) => r == Ok::<u64, IoErrorKind>(p as u64) && final(self).position() == p,
                Err(k) => r == Err::<u64, IoErrorKind>(k) && final(self).position() == old(
                    self,
                ).position(),
            },
            final(self).contents() == old(self).contents(),
    {
        match seek_target(self.data.len() as u64, self.pos, pos) {
            Ok(p) => {
                self.pos = p;
                Ok(p)
            },
            Err(k) => Err(k),
        }
    }
}

/// The data of the file described by `meta` in the pack `pack`: what is stored,
/// decompressed when the file is compressed (`None` when that fails).
pub open spec fn spec_file_contents(pack: Seq<u8>, meta: MetaView) -> Option<Seq<u8>> {
    let stored = file_bytes(pack, meta.offset, meta.size);
    if has_flag(meta.flags, COMPRESSED) {
        lz4_content(stored)
    } else {
        Some(stored)
    }
}

/// A reader of the files of an asset pack, which decompresses compressed files.
pub enum AssetFileReader<'r> {
    /// The [`DirectFileReader`] for an uncompressed file
    Normal(DirectFileReader<'r>),
    /// The reader of the decompressed data of a compressed file
    Decompressed(MemoryFileReader),
}

impl<'r> AssetFileReader<'r> {
    /// The data of the file.
    pub open spec fn contents(&self) -> Seq<u8> {
        match self {
            AssetFileReader::Normal(r) => r.contents(),
            AssetFileReader::Decompressed(r) => r.contents(),
        }
    }

    /// The position of the reader in the file.
    pub open spec fn position(&self) -> nat {
        match self {
            AssetFileReader::Normal(r) => r.position(),
            AssetFileReader::Decompressed(r) => r.position(),
        }
    }

    /// Where the end of the file lies for seeks.
    pub open spec fn end(&self) -> nat {
        match self {
            AssetFileReader::Normal(r) => r.meta().size as nat,
            AssetFileReader::Decompressed(r) => r.contents().len(),
        }
    }

    /// Creates a reader of the file `file_meta` describes, which decompresses the
    /// file if it is stored compressed.
    ///
    /// # Errors
    /// Fails if decompression fails.
    pub fn new(file_reader: DirectFileReader<'r>, file_meta: FileMeta) -> (r: ReadResult<Self>)
        requires
            file_reader.meta() == file_meta,
            file_reader.position() == 0,
        ensures
            match r {
                Ok(fr) => spec_file_contents(file_reader.pack(), file_meta@) == Some(fr.contents())
                    && fr.position() == 0,
                Err(e) => has_flag(file_meta.flags, COMPRESSED) && e@ == ReadErrorView::IoError(
                    IoErrorKind::Other,
                    ReadStepView::DecompressFile(file_meta@),
                ),
            },
            spec_file_contents(file_reader.pack(), file_meta@) is None ==> r is Err,
            !has_flag(file_meta.flags, COMPRESSED) ==> r is Ok,
    {
        if is_compressed(file_meta.flags) {
            let mut file_reader = file_reader;
            let compressed = file_reader.read_to_end();
            assert(compressed@ =~= file_reader.contents());
            match decompress(compressed.as_slice()) {
                Some(data) => Ok(AssetFileReader::Decompressed(MemoryFileReader::new(data))),
                None => Err(ReadError::IoError { kind: IoErrorKind::Other, step: ReadStep::DecompressFile(file_meta) }),
            }
        } else {
            Ok(AssetFileReader::Normal(file_reader))
        }
    }

    /// Reads at most `max` bytes from the current position and moves past them.
    pub fn read(&mut self, max: usize) -> (r: Vec<u8>)
        ensures
            r@ == spec_read(old(self).contents(), old(self).position(), max as nat),
            final(self).position() == old(self).position() + r@.len(),
            final(self).contents() == old(self).contents(),
            final(self).end() == old(self).end(),
    {
        match self {
            AssetFileReader::Normal(r) => r.read(max),
            AssetFileReader::Decompressed(r) => r.read(max),
        }
    }

    /// Seeks within the file; returns the new position.
    pub fn seek(&mut self, pos: SeekFrom) -> (r: Result<u64, IoErrorKind>)
        ensures
            match spec_seek(old(self).end(), old(self).position(), pos) {
                Ok(p) => r == Ok::<u64, IoErrorKind>(p as u64) && final(self).position() == p,
                Err(k) => r == Err::<u64, IoErrorKind>(k) && final(self).position() == old(
                    self,
                ).position(),
            },
            final(self).contents() == old(self).contents(),
            final(self).end() == old(self).end(),
    {
        match self {
            AssetFileReader::Normal(r) => r.seek(pos),
            AssetFileReader::Decompressed(r) => r.seek(pos),
        }
    }

    /// Reads the file from the current position to its end.
    pub fn read_to_end(&mut self) -> (r: Vec<u8>)
        ensures
            r@ == spec_read(old(self).contents(), old(self).position(), old(self).contents().len()),
            final(self).contents() == old(self).contents(),
    {
        match self {
            AssetFileReader::Normal(r) => r.read_to_end(),
            AssetFileReader::Decompressed(r) => {
                let n = r.data.len();
                r.read(n)
            },
        }
    }
}

} // verus!
