//! The bytes of the asset pack that the compiler writes, stated over what it stores.
use crate::digest::blake3_digest;
use crate::encoding::be_bytes;
use crate::format::{encode_meta, MetaView, MAGIC};
use vstd::prelude::*;

verus! {

/// A file as the compiler stores it: the bytes of its path, its flags and its data.
pub struct StoredFile {
    pub name: Seq<u8>,
    pub flags: u8,
    pub data: Seq<u8>,
}

/// The data section that the files make up: their data, one after another.
pub open spec fn glob_of(files: Seq<StoredFile>) -> Seq<u8>
    decreases files.len(),
{
    if files.len() == 0 {
        seq![]
    } else {
        glob_of(files.drop_last()) + files.last().data
    }
}

/// The metadata of a stored file whose data starts at `offset` of the data section.
pub open spec fn meta_of(f: StoredFile, offset: nat) -> MetaView {
    MetaView { hash: blake3_digest(f.data), flags: f.flags, offset, size: f.data.len() }
}

/// The table of contents entry of a file: its path, a NUL byte and its metadata.
pub open spec fn encode_toc_entry(name: Seq<u8>, m: MetaView) -> Seq<u8> {
    name + seq![0u8] + encode_meta(m)
}

/// The entries of the table of contents of `files`, without the end marker,
/// when their data starts at offset `base` of the data section.
pub open spec fn toc_entries_bytes(files: Seq<StoredFile>, base: nat) -> Seq<u8>
    decreases files.len(),
{
    if files.len() == 0 {
        seq![]
    } else {
        let prev = files.drop_last();
        toc_entries_bytes(prev, base) + encode_toc_entry(
            files.last().name,
            meta_of(files.last(), base + glob_of(prev).len()),
        )
    }
}

/// The bytes `FF 07 FF 00` that end the table of contents.
pub open spec fn toc_end_marker() -> Seq<u8> {
    seq![0xffu8, 0x07, 0xff, 0x00]
}

/// The bytes `FF 10 FF 00` that end the directory list.
pub open spec fn dl_end_marker() -> Seq<u8> {
    seq![0xffu8, 0x10, 0xff, 0x00]
}

/// The table of contents of `files`.
pub open spec fn toc_section(files: Seq<StoredFile>) -> Seq<u8> {
    toc_entries_bytes(files, 0) + toc_end_marker()
}

/// The entries of the directory list, without the end marker.
pub open spec fn dl_entries_bytes(dirs: Seq<Seq<u8>>) -> Seq<u8>
    decreases dirs.len(),
{
    if dirs.len() == 0 {
        seq![]
    } else {
        dl_entries_bytes(dirs.drop_last()) + dirs.last() + seq![0u8]
    }
}

/// The directory list of `dirs`.
pub open spec fn dl_section(dirs: Seq<Seq<u8>>) -> Seq<u8> {
    dl_entries_bytes(dirs) + dl_end_marker()
}

/// The header: magic bytes, version 1 and the two digests.
pub open spec fn header_bytes(toc_hash: Seq<u8>, dl_hash: Seq<u8>) -> Seq<u8> {
    MAGIC@ + be_bytes(1, 2) + toc_hash + dl_hash
}

/// The asset pack that stores `files` and lists `dirs`.
pub open spec fn spec_pack(files: Seq<StoredFile>, dirs: Seq<Seq<u8>>) -> Seq<u8> {
    let toc = toc_section(files);
    let dl = dl_section(dirs);
    header_bytes(blake3_digest(toc), blake3_digest(dl)) + toc + dl + glob_of(files)
}

} // verus!
