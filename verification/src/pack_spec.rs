//! What reading an asset pack yields, stated over the bytes of the pack.
use crate::digest::blake3_digest;
use crate::errors::{IoErrorKind, ReadErrorView, ReadStepView};
use crate::flags::{has_flag, UNIQUE};
use crate::format::{decode_meta, lemma_nul_index, nul_index, unique_prefix, MetaView};
use crate::toc_map::entries_insert;
use vstd::prelude::*;
use vstd::utf8::{decode_utf8, encode_utf8, pop_first_scalar, valid_utf8};

verus! {

/// The path that marks the end of the table of contents (the marker without its NUL).
pub open spec fn toc_end_name() -> Seq<u8> {
    seq![0xffu8, 0x07, 0xff]
}

/// The path that marks the end of the directory list (the marker without its NUL).
pub open spec fn dl_end_name() -> Seq<u8> {
    seq![0xffu8, 0x10, 0xff]
}

/// A table of contents entry as stored: the bytes of the path and the metadata.
pub type RawEntry = (Seq<u8>, MetaView);

/// The entries of the table of contents that starts at position `p` of `data`,
/// and the position just after its end marker; or the error that reading it meets.
pub open spec fn parse_toc_from(data: Seq<u8>, p: int) -> Result<(Seq<RawEntry>, int), ReadErrorView>
    decreases data.len() - p,
{
    match nul_index(data, p) {
        None => Err(ReadErrorView::InvalidPackFile),
        Some(i) => {
            let name = data.subrange(p, i);
            if name == toc_end_name() {
                Ok((seq![], i + 1))
            } else if !valid_utf8(name) {
                Err(ReadErrorView::Utf8Error(name))
            } else if i + 50 > data.len() {
                Err(
                    ReadErrorView::IoError(
                        IoErrorKind::UnexpectedEof,
                        ReadStepView::ReadTOC(decode_utf8(name)),
                    ),
                )
            } else {
                let meta = decode_meta(data.subrange(i + 1, i + 50));
                if has_flag(meta.flags, UNIQUE) && !unique_prefix().is_prefix_of(name) {
                    Err(ReadErrorView::InvalidPackFile)
                } else {
                    proof {
                        lemma_nul_index(data, p);
                    }
                    match parse_toc_from(data, i + 50) {
                        Ok(rest) => Ok((seq![(name, meta)] + rest.0, rest.1)),
                        Err(e) => Err(e),
                    }
                }
            }
        },
    }
}

/// The paths of the directory list that starts at position `p` of `data`, and the
/// position just after its end marker; or the error that reading it meets.
pub open spec fn parse_dl_from(data: Seq<u8>, p: int) -> Result<(Seq<Seq<u8>>, int), ReadErrorView>
    decreases data.len() - p,
{
    match nul_index(data, p) {
        None => Err(ReadErrorView::InvalidPackFile),
        Some(i) => {
            let name = data.subrange(p, i);
            if name == dl_end_name() {
                Ok((seq![], i + 1))
            } else if !valid_utf8(name) {
                Err(ReadErrorView::Utf8Error(name))
            } else {
                proof {
                    lemma_nul_index(data, p);
                }
                match parse_dl_from(data, i + 1) {
                    Ok(rest) => Ok((seq![name] + rest.0, rest.1)),
                    Err(e) => Err(e),
                }
            }
        },
    }
}

/// The path a table of contents entry is listed under: its decoded path, without
/// the leading `__unique__/` when the entry is pack-unique.
pub open spec fn entry_key(name: Seq<u8>, flags: u8) -> Seq<char> {
    if has_flag(flags, UNIQUE) {
        decode_utf8(name).skip(11)
    } else {
        decode_utf8(name)
    }
}

/// Decoding bytes whose first `k` bytes are ASCII gives `k` characters for them,
/// followed by the decoding of the rest.
pub proof fn lemma_decode_ascii_prefix(b: Seq<u8>, k: int)
    requires
        valid_utf8(b),
        0 <= k <= b.len(),
        forall|i: int| 0 <= i < k ==> b[i] <= 0x7f,
    ensures
        valid_utf8(b.skip(k)),
        decode_utf8(b).len() == k + decode_utf8(b.skip(k)).len(),
        decode_utf8(b).skip(k) == decode_utf8(b.skip(k)),
    decreases k,
{
    if k == 0 {
        assert(b.skip(0) =~= b);
        assert(decode_utf8(b).skip(0) =~= decode_utf8(b));
    } else {
        lemma_decode_ascii_prefix(b, k - 1);
        let c = b.skip(k - 1);
        assert(c[0] == b[k - 1]);
        assert(pop_first_scalar(c) =~= b.skip(k));
        assert(decode_utf8(c).drop_first() =~= decode_utf8(b.skip(k)));
        assert(decode_utf8(b).skip(k) =~= decode_utf8(b).skip(k - 1).drop_first());
    }
}

/// The path of a pack-unique entry, whose bytes start with `__unique__/`, is the
/// decoding of the bytes after that prefix.
pub proof fn lemma_unique_key(name: Seq<u8>)
    requires
        valid_utf8(name),
        unique_prefix().is_prefix_of(name),
    ensures
        valid_utf8(name.skip(11)),
        decode_utf8(name).len() >= 11,
        decode_utf8(name).skip(11) == decode_utf8(name.skip(11)),
{
    assert forall|i: int| 0 <= i < 11 implies name[i] <= 0x7f by {
        assert(name[i] == unique_prefix()[i]);
    }
    lemma_decode_ascii_prefix(name, 11);
}

/// The map that the entries build, taking those that are pack-unique (`unique`)
/// or those that are not: each path (without `__unique__/` for pack-unique
/// entries) goes in once, in the order it first occurs, with the metadata of its
/// last entry.
pub open spec fn entries_map(entries: Seq<RawEntry>, unique: bool) -> Seq<(Seq<char>, MetaView)>
    decreases entries.len(),
{
    if entries.len() == 0 {
        seq![]
    } else {
        let prev = entries_map(entries.drop_last(), unique);
        let e = entries.last();
        if has_flag(e.1.flags, UNIQUE) == unique {
            entries_insert(prev, entry_key(e.0, e.1.flags), e.1)
        } else {
            prev
        }
    }
}

/// The entries with every offset moved by `start`.
pub open spec fn shift_offsets(s: Seq<(Seq<char>, MetaView)>, start: nat) -> Seq<(Seq<char>, MetaView)> {
    s.map_values(|e: (Seq<char>, MetaView)| (e.0, MetaView { offset: e.1.offset + start, ..e.1 }))
}

/// The bytes of the pack that a file whose data starts at `offset` and spans
/// `size` bytes reads: those that the pack holds of that range.
pub open spec fn file_bytes(data: Seq<u8>, offset: nat, size: nat) -> Seq<u8> {
    let lo = if offset < data.len() { offset as int } else { data.len() as int };
    let hi = if offset + size < data.len() { (offset + size) as int } else { data.len() as int };
    data.subrange(lo, hi)
}

/// A file is damaged when its offset does not fit in 64 bits or its data does not
/// have its digest.
pub open spec fn file_damaged(data: Seq<u8>, m: MetaView) -> bool {
    m.offset > u64::MAX || blake3_digest(file_bytes(data, m.offset, m.size)) != m.hash
}

/// The path of the first damaged file among `files`, if any.
pub open spec fn first_damaged(data: Seq<u8>, files: Seq<(Seq<char>, MetaView)>) -> Option<Seq<char>>
    decreases files.len(),
{
    if files.len() == 0 {
        None
    } else if file_damaged(data, files[0].1) {
        Some(files[0].0)
    } else {
        first_damaged(data, files.drop_first())
    }
}

/// The position of the first file whose path, in UTF-8, starts with `dir` and a
/// slash; the number of files if there is none.
pub open spec fn dir_start_index(files: Seq<(Seq<char>, MetaView)>, dir: Seq<char>) -> nat
    decreases files.len(),
{
    if files.len() == 0 {
        0
    } else if (encode_utf8(dir) + seq![0x2fu8]).is_prefix_of(encode_utf8(files[0].0)) {
        0
    } else {
        1 + dir_start_index(files.drop_first(), dir)
    }
}

/// The content of a pack front: the table of contents (without pack-unique files),
/// the directories with the position of their first file, and the pack-unique
/// files. Offsets count from the start of the pack.
pub struct FrontView {
    pub toc: Seq<(Seq<char>, MetaView)>,
    pub directory_list: Seq<(Seq<char>, nat)>,
    pub unique_files: Seq<(Seq<char>, MetaView)>,
}

/// The directory list with the start of each directory in `toc`.
pub open spec fn dirs_with_starts(dirs: Seq<Seq<u8>>, toc: Seq<(Seq<char>, MetaView)>) -> Seq<
    (Seq<char>, nat),
> {
    dirs.map_values(|d: Seq<u8>| (decode_utf8(d), dir_start_index(toc, decode_utf8(d))))
}

/// What reading the pack front of `data` yields: the sections after the header,
/// checked against their digests, with every file checked against its digest.
pub open spec fn spec_pack_front(data: Seq<u8>) -> Result<FrontView, ReadErrorView> {
    if data.len() < 70 {
        Err(ReadErrorView::IoError(IoErrorKind::UnexpectedEof, ReadStepView::ReadPackFront))
    } else {
        match parse_toc_from(data, 70) {
            Err(e) => Err(e),
            Ok(toc) => {
                let (entries, toc_end) = toc;
                if blake3_digest(data.subrange(70, toc_end)) != data.subrange(6, 38) {
                    Err(ReadErrorView::DamagedTOC)
                } else {
                    match parse_dl_from(data, toc_end) {
                        Err(e) => Err(e),
                        Ok(dl) => {
                            let (dirs, dl_end) = dl;
                            if blake3_digest(data.subrange(toc_end, dl_end)) != data.subrange(
                                38,
                                70,
                            ) {
                                Err(ReadErrorView::DamagedDirectoryList)
                            } else {
                                let normal = shift_offsets(entries_map(entries, false), dl_end as nat);
                                let unique = shift_offsets(entries_map(entries, true), dl_end as nat);
                                match first_damaged(data, normal + unique) {
                                    Some(path) => Err(ReadErrorView::DamagedFile(path)),
                                    None => Ok(
                                        FrontView {
                                            toc: normal,
                                            directory_list: dirs_with_starts(dirs, normal),
                                            unique_files: unique,
                                        },
                                    ),
                                }
                            }
                        },
                    }
                }
            },
        }
    }
}

/// A table of contents that reads ends after its start and within the data.
pub proof fn lemma_parse_toc_bounds(data: Seq<u8>, p: int)
    requires
        0 <= p,
    ensures
        parse_toc_from(data, p) matches Ok(t) ==> p < t.1 <= data.len(),
    decreases data.len() - p,
{
    lemma_nul_index(data, p);
    match nul_index(data, p) {
        None => {},
        Some(i) => {
            if i + 50 <= data.len() {
                lemma_parse_toc_bounds(data, i + 50);
            }
        },
    }
}

/// A directory list that reads ends after its start and within the data.
pub proof fn lemma_parse_dl_bounds(data: Seq<u8>, p: int)
    requires
        0 <= p,
    ensures
        parse_dl_from(data, p) matches Ok(t) ==> p < t.1 <= data.len(),
    decreases data.len() - p,
{
    lemma_nul_index(data, p);
    match nul_index(data, p) {
        None => {},
        Some(i) => {
            lemma_parse_dl_bounds(data, i + 1);
        },
    }
}

} // verus!
