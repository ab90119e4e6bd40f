//! Reading the sections of an asset pack held in memory.
use crate::digest::{blake3_digest, bytes_equal, hash_bytes};
use crate::encoding::{lemma_be_value_bound, lemma_pow256_values, u16_from_be_bytes, u64_from_be_bytes};
use crate::errors::{IoErrorKind, ReadError, ReadErrorView, ReadResult, ReadStep, ReadStepView};
use crate::flags::{has_flag, is_unique, UNIQUE};
use crate::format::{
    decode_meta, lemma_nul_index, nul_index, unique_prefix, FileMeta, MetaView, DL_HASH_POS,
    FORMAT_VERSION, HEADER_LEN, MAGIC, META_LEN, TOC_HASH_POS,
};
use crate::pack_spec::{
    dl_end_name, entries_map, entry_key, file_bytes, file_damaged, first_damaged, lemma_parse_toc_bounds,
    lemma_unique_key,
    parse_dl_from, parse_toc_from, shift_offsets, toc_end_name, RawEntry,
};
use crate::text::string_from_utf8;
use crate::toc_map::{
    entries_insert, key_position, keys_unique, lemma_insert_keeps_unique, lemma_key_position, lemma_view_insert,
    toc_entries, toc_get_index, toc_insert, toc_len, toc_new, view_entries,
};
use crate::encoding::be_value;
use indexmap::IndexMap;
use vstd::prelude::*;
use vstd::slice::{slice_subrange, slice_to_vec};
use vstd::utf8::{decode_utf8, valid_utf8};

verus! {

/// What validating the header of `data` yields.
pub open spec fn spec_validate_header(data: Seq<u8>) -> Result<(), ReadErrorView> {
    if data.len() < 4 {
        Err(ReadErrorView::IoError(IoErrorKind::UnexpectedEof, ReadStepView::ValidateHeader))
    } else if data.subrange(0, 4) != MAGIC@ {
        Err(ReadErrorView::InvalidPackFile)
    } else {
        Ok(())
    }
}

/// What validating the version of `data` (after its magic bytes) yields.
pub open spec fn spec_validate_version(data: Seq<u8>) -> Result<u16, ReadErrorView> {
    if data.len() < 6 {
        Err(ReadErrorView::IoError(IoErrorKind::UnexpectedEof, ReadStepView::ValidateHeader))
    } else if be_value(data.subrange(4, 6)) > 1 {
        Err(ReadErrorView::IncompatibleVersion(be_value(data.subrange(4, 6)) as u16))
    } else {
        Ok(be_value(data.subrange(4, 6)) as u16)
    }
}

/// Checks that the pack starts with the magic bytes.
pub fn validate_header(data: &[u8]) -> (r: ReadResult<()>)
    ensures
        match spec_validate_header(data@) {
            Ok(()) => r is Ok,
            Err(e) => r matches Err(re) && re@ == e,
        },
{
    if data.len() < 4 {
        return Err(ReadError::IoError { kind: IoErrorKind::UnexpectedEof, step: ReadStep::ValidateHeader });
    }
    let header = slice_subrange(data, 0, 4);
    if !bytes_equal(header, &MAGIC) {
        return Err(ReadError::InvalidPackFile);
    }
    Ok(())
}

/// Reads the format version that follows the magic bytes, and checks that it is
/// supported: this reader reads the format versions up to 1.
pub fn validate_version(data: &[u8]) -> (r: ReadResult<u16>)
    ensures
        match spec_validate_version(data@) {
            Ok(v) => r == Ok::<u16, ReadError>(v),
            Err(e) => r matches Err(re) && re@ == e,
        },
{
    if data.len() < 6 {
        return Err(ReadError::IoError { kind: IoErrorKind::UnexpectedEof, step: ReadStep::ValidateHeader });
    }
    let version = u16_from_be_bytes(slice_subrange(data, 4, 6));
    if version > FORMAT_VERSION {
        return Err(ReadError::IncompatibleVersion { version });
    }
    Ok(version)
}

/// The result of reading one path of the table of contents or directory list.
pub enum PathRead {
    /// The end marker was read; the position after it.
    End(usize),
    /// A path was read; the position after its NUL byte.
    Path(String, usize),
}

/// Reads the NUL-terminated path at `pos`. Reports the end of the section when
/// the path is `end_name`.
fn read_path(data: &[u8], pos: usize, end_name: &[u8]) -> (r: ReadResult<PathRead>)
    requires
        pos <= data@.len(),
    ensures
        match nul_index(data@, pos as int) {
            None => r matches Err(e) && e@ == ReadErrorView::InvalidPackFile,
            Some(i) => {
                let name = data@.subrange(pos as int, i);
                if name == end_name@ {
                    r matches Ok(PathRead::End(next)) && next == i + 1
                } else if !valid_utf8(name) {
                    r matches Err(e) && e@ == ReadErrorView::Utf8Error(name)
                } else {
                    r matches Ok(PathRead::Path(s, next)) && s@ == decode_utf8(name) && next == i + 1
                }
            },
        },
{
    let mut i = pos;
    while i < data.len()
        invariant
            pos <= i <= data@.len(),
            forall|j: int| pos <= j < i ==> data@[j] != 0,
        ensures
            pos <= i <= data@.len(),
            forall|j: int| pos <= j < i ==> data@[j] != 0,
            i < data@.len() ==> data@[i as int] == 0,
        decreases data.len() - i,
    {
        if data[i] == 0 {
            break;
        }
        i = i + 1;
    }
    proof {
        lemma_nul_index(data@, pos as int);
    }
    if i >= data.len() {
        assert(nul_index(data@, pos as int) is None) by {
            if nul_index(data@, pos as int) is Some {
                let k = nul_index(data@, pos as int)->0;
                assert(data@[k] == 0);
            }
        }
        return Err(ReadError::InvalidPackFile);
    }
    assert(nul_index(data@, pos as int) == Some(i as int)) by {
        if nul_index(data@, pos as int) is None {
            assert(data@[i as int] != 0);
        } else {
            let k = nul_index(data@, pos as int)->0;
            if k < i {
                assert(data@[k] != 0);
            } else if k > i {
                assert(data@[i as int] != 0);
            }
        }
    }
    let name = slice_subrange(data, pos, i);
    if bytes_equal(name, end_name) {
        return Ok(PathRead::End(i + 1));
    }
    let name_vec = slice_to_vec(name);
    match string_from_utf8(name_vec) {
        Some(s) => Ok(PathRead::Path(s, i + 1)),
        None => Err(ReadError::Utf8Error { path: slice_to_vec(name) }),
    }
}

/// Reads the 49 bytes of metadata at `pos`.
pub fn read_file_meta(data: &[u8], pos: usize) -> (r: FileMeta)
    requires
        pos + 49 <= data@.len(),
    ensures
        r@ == decode_meta(data@.subrange(pos as int, pos + 49)),
{
    let n = data.len();
    let mut hash = [0u8; 32];
    let mut k: usize = 0;
    while k < 32
        invariant
            k <= 32,
            pos + 49 <= data@.len(),
            n == data@.len(),
            forall|j: int| 0 <= j < k ==> hash@[j] == data@[pos + j],
        decreases 32 - k,
    {
        hash[k] = data[pos + k];
        k = k + 1;
    }
    let flags = data[pos + 32];
    let offset = u64_from_be_bytes(slice_subrange(data, pos + 33, pos + 41));
    let size = u64_from_be_bytes(slice_subrange(data, pos + 41, pos + 49));
    let meta = FileMeta { hash, flags, offset, size };
    proof {
        let b = data@.subrange(pos as int, pos + 49);
        assert(meta@.hash =~= b.subrange(0, 32));
        assert(data@.subrange(pos + 33, pos + 41) =~= b.subrange(33, 41));
        assert(data@.subrange(pos + 41, pos + 49) =~= b.subrange(41, 49));
    }
    meta
}

/// The result of reading the rest of a section, after the entries `seen` were read.
pub open spec fn after_seen<T>(seen: Seq<T>, rest: Result<(Seq<T>, int), ReadErrorView>) -> Result<
    (Seq<T>, int),
    ReadErrorView,
> {
    match rest {
        Ok(r) => Ok((seen + r.0, r.1)),
        Err(e) => Err(e),
    }
}

/// The bytes `b"__unique__/"`, which start the paths of pack-unique files.
pub const UNIQUE_PREFIX: [u8; 11] = [0x5f, 0x5f, 0x75, 0x6e, 0x69, 0x71, 0x75, 0x65, 0x5f, 0x5f, 0x2f];

/// Whether the bytes `data[lo..hi]` start with `b"__unique__/"`.
fn has_unique_prefix(data: &[u8], lo: usize, hi: usize) -> (r: bool)
    requires
        lo <= hi <= data@.len(),
    ensures
        r == unique_prefix().is_prefix_of(data@.subrange(lo as int, hi as int)),
{
    assert(UNIQUE_PREFIX@ =~= unique_prefix());
    if hi - lo < 11 {
        return false;
    }
    let r = bytes_equal(slice_subrange(data, lo, lo + 11), &UNIQUE_PREFIX);
    proof {
        let name = data@.subrange(lo as int, hi as int);
        assert(data@.subrange(lo as int, lo + 11) =~= name.subrange(0, 11));
    }
    r
}

/// Reads the table of contents that starts at `start`, checks it against the
/// digest `expected_toc_hash`, and splits its files into those that are not
/// pack-unique and those that are.
///
/// Returns both maps, with offsets counted from the start of the data section,
/// and the position after the end marker.
///
/// # Errors
/// Fails when the table of contents does not read, and with
/// [`ReadError::DamagedTOC`] when its bytes do not have the expected digest.
pub fn read_toc(data: &[u8], start: usize, expected_toc_hash: &[u8]) -> (r: ReadResult<
    (IndexMap<String, FileMeta>, IndexMap<String, FileMeta>, usize),
>)
    requires
        start <= data@.len(),
    ensures
        match parse_toc_from(data@, start as int) {
            Ok(toc) => if blake3_digest(data@.subrange(start as int, toc.1)) != expected_toc_hash@ {
                r matches Err(re) && re@ == ReadErrorView::DamagedTOC
            } else {
                r matches Ok(t) && view_entries(toc_entries(t.0)) == entries_map(toc.0, false)
                    && view_entries(toc_entries(t.1)) == entries_map(toc.0, true) && t.2 == toc.1
                    && keys_unique(toc_entries(t.0)) && keys_unique(toc_entries(t.1))
            },
            Err(e) => r matches Err(re) && re@ == e,
        },
{
    let (toc, unique, toc_end) = match parse_toc(data, start) {
        Ok(t) => t,
        Err(e) => {
            return Err(e);
        },
    };
    proof {
        lemma_parse_toc_bounds(data@, start as int);
    }
    let toc_hash = hash_bytes(slice_subrange(data, start, toc_end));
    if !bytes_equal(&toc_hash, expected_toc_hash) {
        return Err(ReadError::DamagedTOC);
    }
    Ok((toc, unique, toc_end))
}

/// Reads the entries of the table of contents that starts at `start` into the
/// maps of the files that are not pack-unique and of those that are.
fn parse_toc(data: &[u8], start: usize) -> (r: ReadResult<
    (IndexMap<String, FileMeta>, IndexMap<String, FileMeta>, usize),
>)
    requires
        start <= data@.len(),
    ensures
        match parse_toc_from(data@, start as int) {
            Ok(toc) => r matches Ok(t) && view_entries(toc_entries(t.0)) == entries_map(toc.0, false)
                && view_entries(toc_entries(t.1)) == entries_map(toc.0, true) && t.2 == toc.1
                && keys_unique(toc_entries(t.0)) && keys_unique(toc_entries(t.1)),
            Err(e) => r matches Err(re) && re@ == e,
        },
{
    let n = data.len();
    let end_name: [u8; 3] = [0xff, 0x07, 0xff];
    assert(end_name@ =~= toc_end_name());
    let mut normal = toc_new();
    let mut unique = toc_new();
    let mut pos = start;
    let ghost mut seen: Seq<RawEntry> = seq![];
    assert(seen + Seq::<RawEntry>::empty() =~= seen);
    proof {
        assert(after_seen(seen, parse_toc_from(data@, start as int)) == parse_toc_from(data@, start as int)) by {
            match parse_toc_from(data@, start as int) {
                Ok(r) => { assert(seen + r.0 =~= r.0); },
                Err(e) => {},
            }
        }
    }
    loop
        invariant
            n == data@.len(),
            start <= pos <= data@.len(),
            end_name@ == toc_end_name(),
            parse_toc_from(data@, start as int) == after_seen(seen, parse_toc_from(data@, pos as int)),
            view_entries(toc_entries(normal)) == entries_map(seen, false),
            view_entries(toc_entries(unique)) == entries_map(seen, true),
            keys_unique(toc_entries(normal)),
            keys_unique(toc_entries(unique)),
        decreases data@.len() - pos,
    {
        proof {
            lemma_nul_index(data@, pos as int);
        }
        let read = read_path(data, pos, &end_name);
        match read {
            Err(e) => {
                return Err(e);
            },
            Ok(PathRead::End(next)) => {
                proof {
                    assert(seen + Seq::<RawEntry>::empty() =~= seen);
                }
                return Ok((normal, unique, next));
            },
            Ok(PathRead::Path(name, next)) => {
                let ghost name_bytes = data@.subrange(pos as int, next - 1);
                if next > n || META_LEN > n - next {
                    return Err(ReadError::IoError { kind: IoErrorKind::UnexpectedEof, step: ReadStep::ReadTOC(name) });
                }
                let meta = read_file_meta(data, next);
                let unique_flag = is_unique(meta.flags);
                if unique_flag && !has_unique_prefix(data, pos, next - 1) {
                    return Err(ReadError::InvalidPackFile);
                }
                let ghost e: RawEntry = (name_bytes, meta@);
                let key = if unique_flag {
                    proof {
                        lemma_unique_key(name_bytes);
                    }
                    let n_chars = name.unicode_len();
                    name.as_str().substring_char(11, n_chars).to_owned()
                } else {
                    name
                };
                assert(key@ == entry_key(e.0, e.1.flags));
                proof {
                    let rest = parse_toc_from(data@, next + 49);
                    match rest {
                        Ok(r) => {
                            assert(seen + (seq![e] + r.0) =~= seen.push(e) + r.0);
                        },
                        Err(_) => {},
                    }
                    assert(seen.push(e).drop_last() =~= seen);
                    lemma_view_insert(toc_entries(normal), key@, meta);
                    lemma_view_insert(toc_entries(unique), key@, meta);
                    lemma_insert_keeps_unique(toc_entries(normal), key@, meta);
                    lemma_insert_keeps_unique(toc_entries(unique), key@, meta);
                }
                if unique_flag {
                    toc_insert(&mut unique, key, meta);
                } else {
                    toc_insert(&mut normal, key, meta);
                }
                proof {
                    seen = seen.push(e);
                }
                pos = next + META_LEN;
            },
        }
    }
}

/// Reads the directory list that starts at `start`.
///
/// Returns the directories and the position after the end marker.
pub fn read_dl(data: &[u8], start: usize) -> (r: ReadResult<(Vec<String>, usize)>)
    requires
        start <= data@.len(),
    ensures
        match parse_dl_from(data@, start as int) {
            Ok(dl) => r matches Ok(d) && d.0@.map_values(|s: String| s@) == dl.0.map_values(
                |b: Seq<u8>| decode_utf8(b),
            ) && d.1 == dl.1,
            Err(e) => r matches Err(re) && re@ == e,
        },
{
    let end_name: [u8; 3] = [0xff, 0x10, 0xff];
    assert(end_name@ =~= dl_end_name());
    let mut dirs: Vec<String> = Vec::new();
    let mut pos = start;
    let ghost mut seen: Seq<Seq<u8>> = seq![];
    proof {
        assert(after_seen(seen, parse_dl_from(data@, start as int)) == parse_dl_from(data@, start as int)) by {
            match parse_dl_from(data@, start as int) {
                Ok(r) => { assert(seen + r.0 =~= r.0); },
                Err(e) => {},
            }
        }
    }
    loop
        invariant
            start <= pos <= data@.len(),
            end_name@ == dl_end_name(),
            parse_dl_from(data@, start as int) == after_seen(seen, parse_dl_from(data@, pos as int)),
            dirs@.map_values(|s: String| s@) == seen.map_values(|b: Seq<u8>| decode_utf8(b)),
        decreases data@.len() - pos,
    {
        proof {
            lemma_nul_index(data@, pos as int);
        }
        match read_path(data, pos, &end_name) {
            Err(e) => {
                return Err(e);
            },
            Ok(PathRead::End(next)) => {
                proof {
                    assert(seen + Seq::<Seq<u8>>::empty() =~= seen);
                }
                return Ok((dirs, next));
            },
            Ok(PathRead::Path(name, next)) => {
                let ghost name_bytes = data@.subrange(pos as int, next - 1);
                proof {
                    let rest = parse_dl_from(data@, next as int);
                    match rest {
                        Ok(r) => {
                            assert(seen + (seq![name_bytes] + r.0) =~= seen.push(name_bytes) + r.0);
                        },
                        Err(_) => {},
                    }
                    assert(dirs@.push(name).map_values(|s: String| s@) =~= dirs@.map_values(|s: String| s@).push(name@));
                    assert(seen.push(name_bytes).map_values(|b: Seq<u8>| decode_utf8(b)) =~= seen.map_values(|b: Seq<u8>| decode_utf8(b)).push(decode_utf8(name_bytes)));
                }
                dirs.push(name);
                proof {
                    seen = seen.push(name_bytes);
                }
                pos = next;
            },
        }
    }
}

/// The bytes of the pack that the file at `offset` with `size` bytes reads.
pub fn file_slice(data: &[u8], offset: u64, size: u64) -> (r: &[u8])
    ensures
        r@ == file_bytes(data@, offset as nat, size as nat),
{
    let n = data.len();
    let lo: usize = if (offset as u128) < (n as u128) { offset as usize } else { n };
    let hi: usize = if (offset as u128) + (size as u128) < (n as u128) { (offset + size) as usize } else { n };
    slice_subrange(data, lo, hi)
}

/// No file among the first `i + 1` is damaged when none among the first `i` is and
/// the next one is not.
proof fn lemma_first_damaged_extend(data: Seq<u8>, s: Seq<(Seq<char>, MetaView)>, i: int)
    requires
        0 <= i < s.len(),
        first_damaged(data, s.subrange(0, i)) is None,
        !file_damaged(data, s[i].1),
    ensures
        first_damaged(data, s.subrange(0, i + 1)) is None,
    decreases i,
{
    if i == 0 {
        assert(s.subrange(0, 1).drop_first().len() == 0);
    } else {
        assert(s.subrange(0, i)[0] == s[0]);
        assert(s.subrange(0, i).drop_first() =~= s.drop_first().subrange(0, i - 1));
        assert(s.subrange(0, i + 1).drop_first() =~= s.drop_first().subrange(0, i));
        assert(s.drop_first()[i - 1] == s[i]);
        lemma_first_damaged_extend(data, s.drop_first(), i - 1);
    }
}

/// The entries of `orig` whose first `i` offsets are moved by `start`.
pub open spec fn shifted_prefix(orig: Seq<(Seq<char>, MetaView)>, start: nat, i: int) -> Seq<
    (Seq<char>, MetaView),
> {
    shift_offsets(orig, start).subrange(0, i) + orig.subrange(i, orig.len() as int)
}

/// Checks the files of `files` against their digests, after moving their offsets
/// by `start` (the start of the data section), in the order of the map.
///
/// Each file's offset is moved before the file is checked. On success the map
/// holds the moved offsets; otherwise the error names the first damaged file,
/// and the map holds moved offsets for the files up to it (it included, unless
/// its moved offset does not fit in 64 bits) and the offsets it had for the
/// others.
pub fn validate_files(data: &[u8], files: &mut IndexMap<String, FileMeta>, start: u64) -> (r: ReadResult<()>)
    requires
        keys_unique(toc_entries(*old(files))),
    ensures
        match first_damaged(data@, shift_offsets(view_entries(toc_entries(*old(files))), start as nat)) {
            None => r is Ok && view_entries(toc_entries(*final(files))) == shift_offsets(
                view_entries(toc_entries(*old(files))),
                start as nat,
            ) && keys_unique(toc_entries(*final(files))),
            Some(p) => r matches Err(e) && e@ == ReadErrorView::DamagedFile(p) && exists|k: int|
                #![trigger shifted_prefix(view_entries(toc_entries(*old(files))), start as nat, k)]
                0 <= k < toc_entries(*old(files)).len() && view_entries(toc_entries(*final(files)))
                    == shifted_prefix(
                    view_entries(toc_entries(*old(files))),
                    start as nat,
                    if view_entries(toc_entries(*old(files)))[k].1.offset + start <= u64::MAX {
                        k + 1
                    } else {
                        k
                    },
                )
                    && shift_offsets(view_entries(toc_entries(*old(files))), start as nat)[k].0 == p
                    && file_damaged(data@, shift_offsets(view_entries(toc_entries(*old(files))), start as nat)[k].1)
                    && first_damaged(
                    data@,
                    shift_offsets(view_entries(toc_entries(*old(files))), start as nat).subrange(0, k),
                ) is None,
        },
{
    let ghost orig = view_entries(toc_entries(*files));
    let len = toc_len(files);
    let mut i: usize = 0;
    proof {
        assert(shifted_prefix(orig, start as nat, 0) =~= orig);
        assert(shift_offsets(orig, start as nat).subrange(0, len as int) =~= shift_offsets(orig, start as nat));
    }
    while i < len
        invariant
            i <= len,
            len == orig.len(),
            orig == view_entries(toc_entries(*old(files))),
            view_entries(toc_entries(*files)) == shifted_prefix(orig, start as nat, i as int),
            keys_unique(toc_entries(*files)),
            first_damaged(data@, shift_offsets(orig, start as nat)) == first_damaged(
                data@,
                shift_offsets(orig, start as nat).subrange(i as int, len as int),
            ),
            first_damaged(data@, shift_offsets(orig, start as nat).subrange(0, i as int)) is None,
        decreases len - i,
    {
        proof {
            assert(view_entries(toc_entries(*files)).len() == toc_entries(*files).len());
            assert(view_entries(toc_entries(*files))[i as int] == orig[i as int]);
        }
        let entry = toc_get_index(files, i);
        let (key, meta) = match entry {
            Some(e) => (e.0.clone(), *e.1),
            None => {
                return Err(ReadError::InvalidPackFile);
            },
        };
        let ghost shifted = shift_offsets(orig, start as nat);
        let ghost rest = shifted.subrange(i as int, len as int);
        assert(rest[0] == shifted[i as int]);
        assert(rest.drop_first() =~= shifted.subrange(i + 1, len as int));
        assert(view_entries(toc_entries(*files))[i as int] == (toc_entries(*files)[i as int].0, toc_entries(*files)[i as int].1@));
        assert(key@ == orig[i as int].0 && meta@ == orig[i as int].1);
        assert(shifted[i as int].1.offset == meta.offset + start);
        assert(shifted[i as int].1.hash == meta.hash@);
        assert(shifted[i as int].1.size == meta.size);
        assert(shifted[i as int].0 == key@);
        match meta.offset.checked_add(start) {
            None => {
                assert(file_damaged(data@, rest[0].1));
                assert(first_damaged(data@, rest) == Some(rest[0].0));
                assert(first_damaged(data@, shift_offsets(orig, start as nat)) == Some(key@));
                assert(view_entries(toc_entries(*files)) == shifted_prefix(orig, start as nat, i as int));
                return Err(ReadError::DamagedFile { path: key });
            },
            Some(abs) => {
                let moved = FileMeta { offset: abs, ..meta };
                let ghost cur = toc_entries(*files);
                proof {
                    lemma_key_position(toc_entries(*files), key@);
                    assert(toc_entries(*files)[i as int].0 == key@);
                    assert(key_position(cur, key@) == Some(i as int));
                    assert(entries_insert(cur, key@, moved) == cur.update(i as int, (key@, moved)));
                    assert(moved@ == shifted[i as int].1);
                    lemma_view_insert(toc_entries(*files), key@, moved);
                    lemma_insert_keeps_unique(toc_entries(*files), key@, moved);
                }
                toc_insert(files, key.clone(), moved);
                proof {
                    assert(view_entries(cur.update(i as int, (key@, moved))) =~= view_entries(cur).update(i as int, (key@, moved@)));
                    assert(view_entries(cur).update(i as int, (key@, moved@)) =~= shifted_prefix(orig, start as nat, i + 1));
                }
                let digest = hash_bytes(file_slice(data, abs, meta.size));
                if !bytes_equal(&digest, &meta.hash) {
                    assert(file_damaged(data@, rest[0].1));
                    assert(first_damaged(data@, rest) == Some(rest[0].0));
                    return Err(ReadError::DamagedFile { path: key });
                }
                proof {
                    assert(!file_damaged(data@, shifted[i as int].1));
                    lemma_first_damaged_extend(data@, shifted, i as int);
                }
            },
        }
        i = i + 1;
    }
    proof {
        assert(shifted_prefix(orig, start as nat, len as int) =~= shift_offsets(orig, start as nat));
    }
    Ok(())
}

} // verus!
