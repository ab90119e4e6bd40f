//! The layout of an asset pack, stated over bytes.
//!
//! A pack is laid out as follows (all integers big-endian):
//! - the magic bytes `SMAP`, the format version (a `u16`, currently 1), the
//!   BLAKE3 digest of the table of contents and that of the directory list;
//! - the table of contents: for each file its UTF-8 path, a NUL byte, the digest
//!   of its data, its flags, the offset of its data from the start of the data
//!   section and its size (two `u64`s); then the end marker `FF 07 FF 00`;
//! - the directory list: for each directory its UTF-8 path and a NUL byte; then
//!   the end marker `FF 10 FF 00`;
//! - the data section: the data of every file.
use crate::encoding::{be_bytes, be_value, lemma_be_roundtrip, pow256};
use vstd::prelude::*;

verus! {

/// The magic bytes every pack starts with, `b"SMAP"`.
pub const MAGIC: [u8; 4] = [0x53, 0x4d, 0x41, 0x50];

/// The only version of the format that this library reads and writes.
pub const FORMAT_VERSION: u16 = 1;

/// The marker that ends the table of contents.
pub const TOC_END: [u8; 4] = [0xff, 0x07, 0xff, 0x00];

/// The marker that ends the directory list.
pub const DL_END: [u8; 4] = [0xff, 0x10, 0xff, 0x00];

/// The length of the header: magic, version and two digests.
pub const HEADER_LEN: usize = 70;

/// Where the table of contents digest is stored.
pub const TOC_HASH_POS: usize = 6;

/// Where the directory list digest is stored.
pub const DL_HASH_POS: usize = 38;

/// The length of the metadata that follows the path of each file in the table of contents.
pub const META_LEN: usize = 49;

/// The prefix of the paths of pack-unique files.
pub open spec fn unique_prefix() -> Seq<u8> {
    seq![0x5fu8, 0x5f, 0x75, 0x6e, 0x69, 0x71, 0x75, 0x65, 0x5f, 0x5f, 0x2f]
}

/// Information about a file, as stored in the table of contents.
#[derive(Clone, Copy, Debug)]
pub struct FileMeta {
    /// The BLAKE3 digest of the file data.
    pub hash: [u8; 32],
    /// The flags of the file (see [`crate::flags`]).
    pub flags: u8,
    /// Offset in bytes of the file data. In the table of contents it counts from
    /// the start of the data section; once a pack has been read it counts from
    /// the start of the pack.
    pub offset: u64,
    /// Size of the file data in bytes.
    pub size: u64,
}

/// The mathematical content of a [`FileMeta`].
pub struct MetaView {
    pub hash: Seq<u8>,
    pub flags: u8,
    pub offset: nat,
    pub size: nat,
}

impl View for FileMeta {
    type V = MetaView;

    open spec fn view(&self) -> MetaView {
        MetaView { hash: self.hash@, flags: self.flags, offset: self.offset as nat, size: self.size as nat }
    }
}

/// The 49 bytes that follow a path in the table of contents.
pub open spec fn encode_meta(m: MetaView) -> Seq<u8> {
    m.hash + seq![m.flags] + be_bytes(m.offset, 8) + be_bytes(m.size, 8)
}

/// The metadata that 49 bytes of the table of contents stand for.
pub open spec fn decode_meta(b: Seq<u8>) -> MetaView {
    MetaView {
        hash: b.subrange(0, 32),
        flags: b[32],
        offset: be_value(b.subrange(33, 41)),
        size: be_value(b.subrange(41, 49)),
    }
}

/// The first position at or after `p` that holds a NUL byte.
pub open spec fn nul_index(data: Seq<u8>, p: int) -> Option<int>
    decreases data.len() - p,
{
    if p < 0 || p >= data.len() {
        None
    } else if data[p] == 0 {
        Some(p)
    } else {
        nul_index(data, p + 1)
    }
}

/// What [`nul_index`] finds.
pub proof fn lemma_nul_index(data: Seq<u8>, p: int)
    ensures
        nul_index(data, p) matches Some(i) ==> p <= i < data.len() && data[i] == 0 && forall|
            j: int,
        |
            p <= j < i ==> data[j] != 0,
        nul_index(data, p) is None && 0 <= p ==> forall|j: int| p <= j < data.len() ==> data[j]
            != 0,
    decreases data.len() - p,
{
    if 0 <= p < data.len() && data[p] != 0 {
        lemma_nul_index(data, p + 1);
    }
}

/// Encoding metadata and decoding the bytes gives it back, when its numbers fit in 64 bits.
pub proof fn lemma_meta_roundtrip(m: MetaView)
    requires
        m.hash.len() == 32,
        m.offset < pow256(8),
        m.size < pow256(8),
    ensures
        encode_meta(m).len() == 49,
        decode_meta(encode_meta(m)) == m,
{
    lemma_be_roundtrip(m.offset, 8);
    lemma_be_roundtrip(m.size, 8);
    let b = encode_meta(m);
    assert(b.subrange(0, 32) =~= m.hash);
    assert(b.subrange(33, 41) =~= be_bytes(m.offset, 8));
    assert(b.subrange(41, 49) =~= be_bytes(m.size, 8));
}

} // verus!
