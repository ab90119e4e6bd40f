//! Reading the pack front of an asset pack: its table of contents, directory
//! list and pack-unique files, each checked against its digest.
use crate::digest::{blake3_digest, bytes_equal, hash_bytes};
use crate::errors::{IoErrorKind, ReadError, ReadErrorView, ReadResult, ReadStep, ReadStepView};
use crate::format::{FileMeta, MetaView, DL_HASH_POS, HEADER_LEN, TOC_HASH_POS};
use crate::pack_spec::{
    dir_start_index, dirs_with_starts, entries_map, first_damaged, lemma_parse_dl_bounds,
    lemma_parse_toc_bounds, parse_dl_from, parse_toc_from,
    shift_offsets, spec_pack_front, FrontView,
};
use crate::reading::{read_dl, read_toc, validate_files};
use crate::toc_map::{keys_unique, toc_entries, toc_get_index, toc_len, view_entries};
use indexmap::IndexMap;
use vstd::prelude::*;
use vstd::slice::slice_subrange;
use vstd::utf8::{decode_utf8, encode_utf8};

verus! {

/// A directory of the pack and the position in the table of contents of the
/// first file inside it (the number of files if it holds none).
pub struct DirectoryEntry {
    /// The path of the directory, without a trailing slash.
    pub path: String,
    /// The position of its first file in the table of contents.
    pub first_file: usize,
}

/// Stores the sections making up the Pack Front.
///
/// The Pack Front consists of the Table of Contents, Directory List, and the Metadata.
pub struct PackFront {
    /// The map from file path to the [`FileMeta`] of the file, in the order of the
    /// pack. This does NOT contain pack-unique files.
    pub toc: IndexMap<String, FileMeta>,
    /// All the directories in the pack, along with where the first file in them
    /// starts in the TOC.
    pub directory_list: Vec<DirectoryEntry>,
    /// The map from the path of each pack-unique file (without a leading
    /// `__unique__/`) to its [`FileMeta`].
    pub unique_files: IndexMap<String, FileMeta>,
}

impl View for PackFront {
    type V = FrontView;

    open spec fn view(&self) -> FrontView {
        FrontView {
            toc: view_entries(toc_entries(self.toc)),
            directory_list: self.directory_list@.map_values(
                |d: DirectoryEntry| (d.path@, d.first_file as nat),
            ),
            unique_files: view_entries(toc_entries(self.unique_files)),
        }
    }
}

/// Whether `path` starts with the bytes of `dir` followed by a slash.
pub(crate) fn starts_with_dir(path: &[u8], dir: &[u8]) -> (r: bool)
    ensures
        r == (dir@ + seq![0x2fu8]).is_prefix_of(path@),
{
    if path.len() <= dir.len() {
        return false;
    }
    let mut i: usize = 0;
    while i < dir.len()
        invariant
            i <= dir@.len(),
            dir@.len() < path@.len(),
            forall|j: int| 0 <= j < i ==> dir@[j] == path@[j],
        decreases dir.len() - i,
    {
        if dir[i] != path[i] {
            assert((dir@ + seq![0x2fu8])[i as int] == dir@[i as int]);
            return false;
        }
        i = i + 1;
    }
    let r = path[dir.len()] == 0x2f;
    proof {
        let want = dir@ + seq![0x2fu8];
        if r {
            assert(want =~= path@.subrange(0, want.len() as int));
        } else {
            assert(want[dir@.len() as int] == 0x2f);
        }
    }
    r
}

/// Where [`dir_start_index`] lands when no file before `i` matches.
proof fn lemma_dir_start_index(files: Seq<(Seq<char>, MetaView)>, dir: Seq<char>, i: int)
    requires
        0 <= i <= files.len(),
        forall|j: int|
            0 <= j < i ==> !(encode_utf8(dir) + seq![0x2fu8]).is_prefix_of(encode_utf8(files[j].0)),
    ensures
        i == files.len() ==> dir_start_index(files, dir) == files.len(),
        i < files.len() && (encode_utf8(dir) + seq![0x2fu8]).is_prefix_of(encode_utf8(files[i].0))
            ==> dir_start_index(files, dir) == i,
    decreases i,
{
    if i > 0 {
        let rest = files.drop_first();
        assert forall|j: int| 0 <= j < i - 1 implies !(encode_utf8(dir) + seq![
            0x2fu8,
        ]).is_prefix_of(encode_utf8(rest[j].0)) by {
            assert(rest[j] == files[j + 1]);
        }
        lemma_dir_start_index(rest, dir, i - 1);
        if i < files.len() {
            assert(rest[i - 1] == files[i]);
        }
    }
}

/// The position in `toc` of the first file inside the directory `dir`.
fn get_dir_start_index(toc: &IndexMap<String, FileMeta>, dir: &str) -> (r: usize)
    ensures
        r == dir_start_index(view_entries(toc_entries(*toc)), dir@),
{
    let ghost files = view_entries(toc_entries(*toc));
    let len = toc_len(toc);
    let dir_bytes = dir.as_bytes();
    let mut i: usize = 0;
    while i < len
        invariant
            i <= len,
            len == files.len(),
            files == view_entries(toc_entries(*toc)),
            dir_bytes@ == encode_utf8(dir@),
            forall|j: int|
                0 <= j < i ==> !(encode_utf8(dir@) + seq![0x2fu8]).is_prefix_of(
                    encode_utf8(files[j].0),
                ),
        decreases len - i,
    {
        match toc_get_index(toc, i) {
            Some(e) => {
                assert(files[i as int].0 == e.0@);
                if starts_with_dir(e.0.as_str().as_bytes(), dir_bytes) {
                    proof {
                        lemma_dir_start_index(files, dir@, i as int);
                    }
                    return i;
                }
            },
            None => {},
        }
        i = i + 1;
    }
    proof {
        lemma_dir_start_index(files, dir@, len as int);
    }
    len
}

/// Pairs every directory with the position of its first file in `toc`.
pub fn get_dir_start_indices(dirs: Vec<String>, toc: &IndexMap<String, FileMeta>) -> (r: Vec<
    DirectoryEntry,
>)
    ensures
        r@.map_values(|d: DirectoryEntry| (d.path@, d.first_file as nat)) == dirs@.map_values(
            |s: String| (s@, dir_start_index(view_entries(toc_entries(*toc)), s@)),
        ),
{
    let mut out: Vec<DirectoryEntry> = Vec::new();
    let mut i: usize = 0;
    while i < dirs.len()
        invariant
            i <= dirs@.len(),
            out@.len() == i,
            forall|j: int|
                0 <= j < i ==> (#[trigger] out@[j]).path@ == dirs@[j]@ && out@[j].first_file
                    == dir_start_index(view_entries(toc_entries(*toc)), dirs@[j]@),
        decreases dirs.len() - i,
    {
        let first_file = get_dir_start_index(toc, dirs[i].as_str());
        out.push(DirectoryEntry { path: dirs[i].clone(), first_file });
        i = i + 1;
    }
    assert(out@.map_values(|d: DirectoryEntry| (d.path@, d.first_file as nat)) =~= dirs@.map_values(
        |s: String| (s@, dir_start_index(view_entries(toc_entries(*toc)), s@)),
    ));
    out
}

/// The first damaged file of two lists in a row.
proof fn lemma_first_damaged_concat(
    data: Seq<u8>,
    a: Seq<(Seq<char>, MetaView)>,
    b: Seq<(Seq<char>, MetaView)>,
)
    ensures
        first_damaged(data, a + b) == match first_damaged(data, a) {
            Some(p) => Some(p),
            None => first_damaged(data, b),
        },
    decreases a.len(),
{
    if a.len() > 0 {
        assert((a + b).drop_first() =~= a.drop_first() + b);
        lemma_first_damaged_concat(data, a.drop_first(), b);
    } else {
        assert(a + b =~= b);
    }
}

/// Reads the pack front of the pack `data`: the table of contents and the
/// directory list, each checked against the digest in the header, and every
/// file checked against its digest.
pub fn read_pack_front(data: &[u8]) -> (r: ReadResult<PackFront>)
    ensures
        match spec_pack_front(data@) {
            Ok(f) => r matches Ok(front) && front@ == f && keys_unique(toc_entries(front.toc))
                && keys_unique(toc_entries(front.unique_files)),
            Err(e) => r matches Err(re) && re@ == e,
        },
{
    if data.len() < HEADER_LEN {
        return Err(ReadError::IoError { kind: IoErrorKind::UnexpectedEof, step: ReadStep::ReadPackFront });
    }
    let expected_toc_hash = slice_subrange(data, TOC_HASH_POS, DL_HASH_POS);
    let expected_dl_hash = slice_subrange(data, DL_HASH_POS, HEADER_LEN);
    let (mut toc, mut unique_files, toc_end) = match read_toc(data, HEADER_LEN, expected_toc_hash) {
        Ok(t) => t,
        Err(e) => {
            return Err(e);
        },
    };
    proof {
        lemma_parse_toc_bounds(data@, HEADER_LEN as int);
    }
    let (dirs, dl_end) = match read_dl(data, toc_end) {
        Ok(d) => d,
        Err(e) => {
            return Err(e);
        },
    };
    proof {
        lemma_parse_dl_bounds(data@, toc_end as int);
    }
    let dl_hash = hash_bytes(slice_subrange(data, toc_end, dl_end));
    if !bytes_equal(&dl_hash, expected_dl_hash) {
        return Err(ReadError::DamagedDirectoryList);
    }
    let ghost normal = shift_offsets(view_entries(toc_entries(toc)), dl_end as nat);
    let ghost unique = shift_offsets(view_entries(toc_entries(unique_files)), dl_end as nat);
    proof {
        lemma_first_damaged_concat(data@, normal, unique);
    }
    match validate_files(data, &mut toc, dl_end as u64) {
        Ok(()) => {},
        Err(e) => {
            return Err(e);
        },
    }
    match validate_files(data, &mut unique_files, dl_end as u64) {
        Ok(()) => {},
        Err(e) => {
            return Err(e);
        },
    }
    let ghost dirs_view = dirs@;
    let directory_list = get_dir_start_indices(dirs, &toc);
    let front = PackFront { toc, directory_list, unique_files };
    proof {
        let dl = parse_dl_from(data@, toc_end as int)->Ok_0;
        assert(dirs_view.map_values(|s: String| s@) == dl.0.map_values(|b: Seq<u8>| decode_utf8(b)));
        assert(dirs_view.map_values(|s: String| s@).len() == dirs_view.len());
        assert forall|j: int| 0 <= j < dl.0.len() implies dirs_view[j]@ == decode_utf8(dl.0[j]) by {
            assert(dirs_view.map_values(|s: String| s@)[j] == dirs_view[j]@);
            assert(dl.0.map_values(|b: Seq<u8>| decode_utf8(b))[j] == decode_utf8(dl.0[j]));
        }
        assert(front@.directory_list =~= dirs_with_starts(dl.0, front@.toc));
    }
    Ok(front)
}

} // verus!
