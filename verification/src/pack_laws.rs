//! What reading gives back of what the compiler writes.
use crate::digest::blake3_digest;
use crate::encoding::{be_bytes, lemma_be_roundtrip, lemma_pow256_values, pow256};
use crate::errors::ReadErrorView;
use crate::flags::{has_flag, UNIQUE};
use crate::format::{
    decode_meta, encode_meta, lemma_meta_roundtrip, lemma_nul_index, nul_index, unique_prefix,
    MetaView, MAGIC,
};
use crate::pack_layout::{
    dl_end_marker, dl_entries_bytes, dl_section, encode_toc_entry, glob_of, header_bytes, meta_of,
    spec_pack, toc_end_marker, toc_entries_bytes, toc_section, StoredFile,
};
use crate::pack_spec::{
    dl_end_name, dirs_with_starts, entries_map, entry_key, lemma_unique_key, file_bytes, file_damaged, first_damaged,
    parse_dl_from, parse_toc_from, shift_offsets, spec_pack_front, toc_end_name, FrontView,
    RawEntry,
};
use crate::toc_map::{entries_get, entries_insert, key_position, lemma_key_position};
use vstd::prelude::*;
use vstd::utf8::{decode_utf8, decode_utf8_encode_utf8, valid_utf8};

verus! {

/// The entries of the table of contents of `files`, first to last, when their
/// data starts at offset `base`.
pub open spec fn raw_from(files: Seq<StoredFile>, base: nat) -> Seq<RawEntry>
    decreases files.len(),
{
    if files.len() == 0 {
        seq![]
    } else {
        seq![(files[0].name, meta_of(files[0], base))] + raw_from(
            files.drop_first(),
            base + files[0].data.len(),
        )
    }
}

/// The bytes of the entries of the table of contents of `files`, first to last.
pub open spec fn entries_from(files: Seq<StoredFile>, base: nat) -> Seq<u8>
    decreases files.len(),
{
    if files.len() == 0 {
        seq![]
    } else {
        encode_toc_entry(files[0].name, meta_of(files[0], base)) + entries_from(
            files.drop_first(),
            base + files[0].data.len(),
        )
    }
}

/// The bytes of the entries of the directory list, first to last.
pub open spec fn dirs_from(dirs: Seq<Seq<u8>>) -> Seq<u8>
    decreases dirs.len(),
{
    if dirs.len() == 0 {
        seq![]
    } else {
        dirs[0] + seq![0u8] + dirs_from(dirs.drop_first())
    }
}

/// The data section starts with the data of the first file.
pub proof fn lemma_glob_front(files: Seq<StoredFile>)
    requires
        files.len() > 0,
    ensures
        glob_of(files) == files[0].data + glob_of(files.drop_first()),
    decreases files.len(),
{
    if files.len() == 1 {
        assert(files.drop_last() =~= Seq::<StoredFile>::empty());
        assert(files.drop_first() =~= Seq::<StoredFile>::empty());
        assert(glob_of(Seq::<StoredFile>::empty()) == Seq::<u8>::empty());
        assert(files.last() == files[0]);
        assert(glob_of(files) =~= files[0].data);
    } else {
        let d = files.drop_last();
        lemma_glob_front(d);
        assert(d.drop_first() =~= files.drop_first().drop_last());
        assert(files.drop_first().last() == files.last());
        assert(glob_of(files) =~= files[0].data + glob_of(files.drop_first()));
    }
}

/// The table of contents read first to last.
pub proof fn lemma_toc_entries_front(files: Seq<StoredFile>, base: nat)
    ensures
        toc_entries_bytes(files, base) == entries_from(files, base),
    decreases files.len(),
{
    if files.len() == 0 {
    } else if files.len() == 1 {
        assert(files.drop_last() =~= Seq::<StoredFile>::empty());
        assert(files.drop_first() =~= Seq::<StoredFile>::empty());
        assert(glob_of(Seq::<StoredFile>::empty()) == Seq::<u8>::empty());
        assert(toc_entries_bytes(Seq::<StoredFile>::empty(), base) == Seq::<u8>::empty());
        assert(entries_from(Seq::<StoredFile>::empty(), base + files[0].data.len()) == Seq::<u8>::empty());
        assert(files.last() == files[0]);
        assert(toc_entries_bytes(files, base) =~= entries_from(files, base));
    } else {
        let d = files.drop_last();
        let f = files.drop_first();
        let base2 = base + files[0].data.len();
        lemma_toc_entries_front(d, base);
        lemma_toc_entries_front(f, base2);
        lemma_toc_entries_front(d.drop_first(), base2);
        assert(d.drop_first() =~= f.drop_last());
        assert(f.last() == files.last());
        assert(d[0] == files[0]);
        lemma_glob_front(d);
        assert(toc_entries_bytes(files, base) =~= entries_from(files, base));
    }
}

/// The directory list read first to last.
pub proof fn lemma_dl_entries_front(dirs: Seq<Seq<u8>>)
    ensures
        dl_entries_bytes(dirs) == dirs_from(dirs),
    decreases dirs.len(),
{
    if dirs.len() == 0 {
    } else if dirs.len() == 1 {
        assert(dirs.drop_last() =~= Seq::<Seq<u8>>::empty());
        assert(dirs.drop_first() =~= Seq::<Seq<u8>>::empty());
        assert(dl_entries_bytes(Seq::<Seq<u8>>::empty()) == Seq::<u8>::empty());
        assert(dirs_from(Seq::<Seq<u8>>::empty()) == Seq::<u8>::empty());
        assert(dirs.last() == dirs[0]);
        assert(dl_entries_bytes(dirs) =~= dirs_from(dirs));
    } else {
        let d = dirs.drop_last();
        let f = dirs.drop_first();
        lemma_dl_entries_front(d);
        lemma_dl_entries_front(f);
        lemma_dl_entries_front(d.drop_first());
        assert(d.drop_first() =~= f.drop_last());
        assert(f.last() == dirs.last());
        assert(dl_entries_bytes(dirs) =~= dirs_from(dirs));
    }
}

/// A NUL byte at `q`, after only non-NUL bytes from `p`, is the first one found.
pub proof fn lemma_nul_at(data: Seq<u8>, p: int, q: int)
    requires
        0 <= p <= q < data.len(),
        data[q] == 0,
        forall|j: int| p <= j < q ==> data[j] != 0,
    ensures
        nul_index(data, p) == Some(q),
    decreases q - p,
{
    if p < q {
        lemma_nul_at(data, p + 1, q);
    }
}

/// The end markers are not valid UTF-8, so no path is mistaken for one.
pub proof fn lemma_markers_not_utf8()
    ensures
        !valid_utf8(toc_end_name()),
        !valid_utf8(dl_end_name()),
{
    reveal_with_fuel(valid_utf8, 2);
}

/// A path the table of contents can hold: valid UTF-8, without NUL bytes, and
/// starting with `__unique__/` when its file is marked pack-unique.
pub open spec fn path_storable(name: Seq<u8>) -> bool {
    &&& valid_utf8(name)
    &&& forall|k: int| 0 <= k < name.len() ==> name[k] != 0
}

/// The files can be stored in and read from a pack: their paths are storable,
/// pack-unique ones start with `__unique__/`, and their digests are 32 bytes.
pub open spec fn files_storable(files: Seq<StoredFile>) -> bool {
    forall|i: int|
        0 <= i < files.len() ==> {
            &&& path_storable(#[trigger] files[i].name)
            &&& has_flag(files[i].flags, UNIQUE) ==> unique_prefix().is_prefix_of(files[i].name)
            &&& blake3_digest(files[i].data).len() == 32
        }
}

/// Reading the table of contents written for `files` gives their entries back.
pub proof fn lemma_parse_toc_written(data: Seq<u8>, p: int, files: Seq<StoredFile>, base: nat)
    requires
        0 <= p,
        p + entries_from(files, base).len() + 4 <= data.len(),
        data.subrange(p, p + entries_from(files, base).len() + 4) == entries_from(files, base)
            + toc_end_marker(),
        files_storable(files),
        base + glob_of(files).len() < pow256(8),
    ensures
        parse_toc_from(data, p) == Ok::<(Seq<RawEntry>, int), ReadErrorView>(
            (raw_from(files, base), p + entries_from(files, base).len() + 4),
        ),
    decreases files.len(),
{
    lemma_markers_not_utf8();
    if files.len() == 0 {
        assert(data.subrange(p, p + 4) =~= toc_end_marker());
        assert(data[p] == 0xff && data[p + 1] == 0x07 && data[p + 2] == 0xff && data[p + 3] == 0);
        lemma_nul_at(data, p, p + 3);
        assert(data.subrange(p, p + 3) =~= toc_end_name());
    } else {
        let f = files[0];
        let m = meta_of(f, base);
        let rest = files.drop_first();
        let base2 = base + f.data.len();
        let e = encode_toc_entry(f.name, m);
        let q = p + f.name.len();
        lemma_glob_front(files);
        lemma_pow256_values();
        assert(entries_from(files, base) == e + entries_from(rest, base2));
        let whole = entries_from(files, base) + toc_end_marker();
        assert(path_storable(files[0].name));
        assert forall|j: int| p <= j < q implies data[j] != 0 by {
            assert(data[j] == whole[j - p]);
            assert(whole[j - p] == f.name[j - p]);
        }
        assert(data[q] == whole[q - p]);
        lemma_nul_at(data, p, q);
        assert(data.subrange(p, q) =~= f.name);
        assert(f.data.len() <= glob_of(files).len());
        lemma_meta_roundtrip(m);
        let nl = f.name.len() as int;
        assert(whole =~= f.name + seq![0u8] + encode_meta(m) + (entries_from(rest, base2) + toc_end_marker()));
        assert(data.subrange(q + 1, q + 50) =~= whole.subrange(nl + 1, nl + 50));
        assert(whole.subrange(nl + 1, nl + 50) =~= encode_meta(m));
        assert forall|i: int| 0 <= i < rest.len() implies {
            &&& path_storable(#[trigger] rest[i].name)
            &&& has_flag(rest[i].flags, UNIQUE) ==> unique_prefix().is_prefix_of(rest[i].name)
            &&& blake3_digest(rest[i].data).len() == 32
        } by {
            assert(rest[i] == files[i + 1]);
        }
        let n2 = entries_from(rest, base2).len();
        assert(data.subrange(q + 50, q + 50 + n2 + 4) =~= whole.subrange(nl + 50, whole.len() as int));
        assert(whole.subrange(nl + 50, whole.len() as int) =~= entries_from(rest, base2) + toc_end_marker());
        assert(glob_of(rest).len() <= glob_of(files).len() - f.data.len());
        lemma_parse_toc_written(data, q + 50, rest, base2);
        if f.name == toc_end_name() {
            assert(false);
        }
    }
}

/// Reading the directory list written for `dirs` gives them back.
pub proof fn lemma_parse_dl_written(data: Seq<u8>, p: int, dirs: Seq<Seq<u8>>)
    requires
        0 <= p,
        p + dirs_from(dirs).len() + 4 <= data.len(),
        data.subrange(p, p + dirs_from(dirs).len() + 4) == dirs_from(dirs) + dl_end_marker(),
        forall|i: int| 0 <= i < dirs.len() ==> path_storable(#[trigger] dirs[i]),
    ensures
        parse_dl_from(data, p) == Ok::<(Seq<Seq<u8>>, int), ReadErrorView>(
            (dirs, p + dirs_from(dirs).len() + 4),
        ),
    decreases dirs.len(),
{
    lemma_markers_not_utf8();
    if dirs.len() == 0 {
        assert(data.subrange(p, p + 4) =~= dl_end_marker());
        assert(data[p] == 0xff && data[p + 1] == 0x10 && data[p + 2] == 0xff && data[p + 3] == 0);
        lemma_nul_at(data, p, p + 3);
        assert(data.subrange(p, p + 3) =~= dl_end_name());
        assert(dirs =~= Seq::<Seq<u8>>::empty());
    } else {
        let d = dirs[0];
        let rest = dirs.drop_first();
        let q = p + d.len();
        let whole = dirs_from(dirs) + dl_end_marker();
        assert(dirs_from(dirs) == d + seq![0u8] + dirs_from(rest));
        assert(path_storable(dirs[0]));
        assert forall|j: int| p <= j < q implies data[j] != 0 by {
            assert(data[j] == whole[j - p]);
            assert(whole[j - p] == d[j - p]);
        }
        assert(data[q] == whole[q - p]);
        lemma_nul_at(data, p, q);
        assert(data.subrange(p, q) =~= d);
        assert forall|i: int| 0 <= i < rest.len() implies path_storable(#[trigger] rest[i]) by {
            assert(rest[i] == dirs[i + 1]);
        }
        let n2 = dirs_from(rest).len();
        assert(data.subrange(q + 1, q + 1 + n2 + 4) =~= whole.subrange(d.len() as int + 1, whole.len() as int));
        assert(whole.subrange(d.len() as int + 1, whole.len() as int) =~= dirs_from(rest) + dl_end_marker());
        lemma_parse_dl_written(data, q + 1, rest);
        if d == dl_end_name() {
            assert(false);
        }
        assert(seq![d] + rest =~= dirs);
    }
}

/// The data section of files in a row is their sections in a row.
pub proof fn lemma_glob_concat(a: Seq<StoredFile>, b: Seq<StoredFile>)
    ensures
        glob_of(a + b) == glob_of(a) + glob_of(b),
    decreases b.len(),
{
    if b.len() == 0 {
        assert(a + b =~= a);
        assert(glob_of(a) + glob_of(b) =~= glob_of(a));
    } else {
        lemma_glob_concat(a, b.drop_last());
        assert((a + b).drop_last() =~= a + b.drop_last());
        assert((a + b).last() == b.last());
        assert(glob_of(a + b) =~= glob_of(a) + glob_of(b));
    }
}

/// The data of file `i` lies in the data section right after that of the files before it.
pub proof fn lemma_glob_slice(files: Seq<StoredFile>, i: int)
    requires
        0 <= i < files.len(),
    ensures
        glob_of(files.take(i)).len() + files[i].data.len() <= glob_of(files).len(),
        glob_of(files).subrange(
            glob_of(files.take(i)).len() as int,
            (glob_of(files.take(i)).len() + files[i].data.len()) as int,
        ) == files[i].data,
{
    let t = files.take(i + 1);
    assert(t.drop_last() =~= files.take(i));
    assert(t.last() == files[i]);
    assert(glob_of(t) == glob_of(files.take(i)) + files[i].data);
    assert(files =~= t + files.skip(i + 1));
    lemma_glob_concat(t, files.skip(i + 1));
    let g = glob_of(files);
    let off = glob_of(files.take(i)).len() as int;
    assert(g.subrange(off, off + files[i].data.len()) =~= files[i].data);
}

/// The entries of the table of contents, one by one.
pub proof fn lemma_raw_from_index(files: Seq<StoredFile>, base: nat)
    ensures
        raw_from(files, base).len() == files.len(),
        forall|i: int|
            0 <= i < files.len() ==> #[trigger] raw_from(files, base)[i] == (
                files[i].name,
                meta_of(files[i], base + glob_of(files.take(i)).len()),
            ),
    decreases files.len(),
{
    if files.len() > 0 {
        let rest = files.drop_first();
        let base2 = base + files[0].data.len();
        lemma_raw_from_index(rest, base2);
        assert forall|i: int| 0 <= i < files.len() implies #[trigger] raw_from(files, base)[i] == (
            files[i].name,
            meta_of(files[i], base + glob_of(files.take(i)).len()),
        ) by {
            if i == 0 {
                assert(files.take(0) =~= Seq::<StoredFile>::empty());
                assert(glob_of(Seq::<StoredFile>::empty()) == Seq::<u8>::empty());
            } else {
                let t = files.take(i);
                lemma_glob_front(t);
                assert(t.drop_first() =~= rest.take(i - 1));
                assert(t[0] == files[0]);
                assert(raw_from(files, base)[i] == raw_from(rest, base2)[i - 1]);
                assert(rest[i - 1] == files[i]);
            }
        }
    }
}

/// The entries of the pack-unique files (`unique`) or of the others, each under
/// the path it is listed under, in order.
pub open spec fn select_entries(raw: Seq<RawEntry>, unique: bool) -> Seq<(Seq<char>, MetaView)>
    decreases raw.len(),
{
    if raw.len() == 0 {
        seq![]
    } else {
        let prev = select_entries(raw.drop_last(), unique);
        let e = raw.last();
        if has_flag(e.1.flags, UNIQUE) == unique {
            prev.push((entry_key(e.0, e.1.flags), e.1))
        } else {
            prev
        }
    }
}

/// A path that no selected entry has is not found among the selected entries.
pub proof fn lemma_select_no_key(raw: Seq<RawEntry>, unique: bool, k: Seq<char>)
    requires
        forall|i: int| 0 <= i < raw.len() && has_flag(raw[i].1.flags, UNIQUE) == unique ==> entry_key(#[trigger] raw[i].0, raw[i].1.flags) != k,
    ensures
        key_position(select_entries(raw, unique), k) is None,
    decreases raw.len(),
{
    if raw.len() > 0 {
        let d = raw.drop_last();
        assert forall|i: int| 0 <= i < d.len() && has_flag(d[i].1.flags, UNIQUE) == unique implies entry_key(#[trigger] d[i].0, d[i].1.flags) != k by {
            assert(d[i] == raw[i]);
        }
        lemma_select_no_key(d, unique, k);
        let prev = select_entries(d, unique);
        let e = raw.last();
        if has_flag(e.1.flags, UNIQUE) == unique {
            assert(prev.push((entry_key(e.0, e.1.flags), e.1)).drop_last() =~= prev);
        }
    }
}

/// The paths the entries are listed under are pairwise distinct among the
/// pack-unique entries and among the others.
pub open spec fn decoded_distinct(raw: Seq<RawEntry>) -> bool {
    forall|i: int, j: int|
        0 <= i < j < raw.len() && has_flag(raw[i].1.flags, UNIQUE) == has_flag(raw[j].1.flags, UNIQUE)
            ==> entry_key(#[trigger] raw[i].0, raw[i].1.flags) != entry_key(#[trigger] raw[j].0, raw[j].1.flags)
}

/// With distinct paths, building the map keeps every selected entry.
pub proof fn lemma_entries_map_distinct(raw: Seq<RawEntry>, unique: bool)
    requires
        decoded_distinct(raw),
    ensures
        entries_map(raw, unique) == select_entries(raw, unique),
    decreases raw.len(),
{
    if raw.len() > 0 {
        let d = raw.drop_last();
        assert(decoded_distinct(d)) by {
            assert forall|i: int, j: int| 0 <= i < j < d.len() && has_flag(d[i].1.flags, UNIQUE) == has_flag(d[j].1.flags, UNIQUE)
                implies entry_key(#[trigger] d[i].0, d[i].1.flags) != entry_key(#[trigger] d[j].0, d[j].1.flags) by {
                assert(d[i] == raw[i] && d[j] == raw[j]);
            }
        }
        lemma_entries_map_distinct(d, unique);
        let e = raw.last();
        if has_flag(e.1.flags, UNIQUE) == unique {
            assert forall|i: int| 0 <= i < d.len() && has_flag(d[i].1.flags, UNIQUE) == unique implies entry_key(#[trigger] d[i].0, d[i].1.flags) != entry_key(e.0, e.1.flags) by {
                assert(d[i] == raw[i]);
            }
            lemma_select_no_key(d, unique, entry_key(e.0, e.1.flags));
        }
    }
}

/// A property of every entry holds of every selected entry.
pub proof fn lemma_select_all(raw: Seq<RawEntry>, unique: bool, p: spec_fn(MetaView) -> bool)
    requires
        forall|i: int| 0 <= i < raw.len() ==> p(#[trigger] raw[i].1),
    ensures
        forall|j: int| 0 <= j < select_entries(raw, unique).len() ==> p(#[trigger] select_entries(raw, unique)[j].1),
    decreases raw.len(),
{
    if raw.len() > 0 {
        let d = raw.drop_last();
        assert forall|i: int| 0 <= i < d.len() implies p(#[trigger] d[i].1) by {
            assert(d[i] == raw[i]);
        }
        lemma_select_all(d, unique, p);
        let prev = select_entries(d, unique);
        let e = raw.last();
        assert(p(e.1));
        if has_flag(e.1.flags, UNIQUE) == unique {
            let s = prev.push((entry_key(e.0, e.1.flags), e.1));
            assert forall|j: int| 0 <= j < s.len() implies p(#[trigger] s[j].1) by {
                if j < prev.len() {
                    assert(s[j] == prev[j]);
                }
            }
        }
    }
}

/// No file is damaged when none of them is.
pub proof fn lemma_none_damaged(data: Seq<u8>, files: Seq<(Seq<char>, MetaView)>)
    requires
        forall|j: int| 0 <= j < files.len() ==> !file_damaged(data, #[trigger] files[j].1),
    ensures
        first_damaged(data, files) is None,
    decreases files.len(),
{
    if files.len() > 0 {
        assert(!file_damaged(data, files[0].1));
        assert forall|j: int| 0 <= j < files.drop_first().len() implies !file_damaged(data, #[trigger] files.drop_first()[j].1) by {
            assert(files.drop_first()[j] == files[j + 1]);
        }
        lemma_none_damaged(data, files.drop_first());
    }
}

/// The paths in the table of contents written for `files`, decoded, are distinct
/// when the paths of the files are.
pub proof fn lemma_raw_decoded_distinct(files: Seq<StoredFile>, base: nat)
    requires
        files_storable(files),
        forall|i: int, j: int|
            0 <= i < j < files.len() ==> (#[trigger] files[i]).name != (#[trigger] files[j]).name,
    ensures
        decoded_distinct(raw_from(files, base)),
{
    let raw = raw_from(files, base);
    lemma_raw_from_index(files, base);
    assert forall|i: int, j: int| 0 <= i < j < raw.len() && has_flag(raw[i].1.flags, UNIQUE) == has_flag(raw[j].1.flags, UNIQUE)
        implies entry_key(#[trigger] raw[i].0, raw[i].1.flags) != entry_key(#[trigger] raw[j].0, raw[j].1.flags) by {
        let a = files[i].name;
        let b = files[j].name;
        assert(raw[i].0 == a);
        assert(raw[j].0 == b);
        assert(raw[i].1.flags == files[i].flags);
        assert(raw[j].1.flags == files[j].flags);
        assert(path_storable(a));
        assert(path_storable(b));
        decode_utf8_encode_utf8(a);
        decode_utf8_encode_utf8(b);
        if has_flag(files[i].flags, UNIQUE) {
            lemma_unique_key(a);
            lemma_unique_key(b);
            decode_utf8_encode_utf8(a.skip(11));
            decode_utf8_encode_utf8(b.skip(11));
            if a.skip(11) == b.skip(11) {
                assert(a =~= unique_prefix() + a.skip(11));
                assert(b =~= unique_prefix() + b.skip(11));
            }
        }
    }
}

/// Moving the offsets keeps every path where it is.
pub proof fn lemma_key_position_shift(s: Seq<(Seq<char>, MetaView)>, start: nat, k: Seq<char>)
    ensures
        key_position(shift_offsets(s, start), k) == key_position(s, k),
    decreases s.len(),
{
    if s.len() > 0 {
        assert(shift_offsets(s, start).drop_last() =~= shift_offsets(s.drop_last(), start));
        lemma_key_position_shift(s.drop_last(), start, k);
    }
}

/// A selected entry is found under its decoded path with its metadata.
pub proof fn lemma_select_get(raw: Seq<RawEntry>, unique: bool, i: int)
    requires
        decoded_distinct(raw),
        0 <= i < raw.len(),
        has_flag(raw[i].1.flags, UNIQUE) == unique,
    ensures
        key_position(select_entries(raw, unique), entry_key(raw[i].0, raw[i].1.flags)) matches Some(pos) && 0 <= pos
            < select_entries(raw, unique).len() && select_entries(raw, unique)[pos].1 == raw[i].1,
    decreases raw.len(),
{
    let d = raw.drop_last();
    let k = entry_key(raw[i].0, raw[i].1.flags);
    let prev = select_entries(d, unique);
    let e = raw.last();
    assert(decoded_distinct(d)) by {
        assert forall|a: int, b: int| 0 <= a < b < d.len() && has_flag(d[a].1.flags, UNIQUE) == has_flag(d[b].1.flags, UNIQUE)
            implies entry_key(#[trigger] d[a].0, d[a].1.flags) != entry_key(#[trigger] d[b].0, d[b].1.flags) by {
            assert(d[a] == raw[a] && d[b] == raw[b]);
        }
    }
    if i == raw.len() - 1 {
        assert forall|a: int| 0 <= a < d.len() && has_flag(d[a].1.flags, UNIQUE) == unique implies entry_key(#[trigger] d[a].0, d[a].1.flags) != k by {
            assert(d[a] == raw[a]);
        }
        lemma_select_no_key(d, unique, k);
        assert(prev.push((k, e.1)).drop_last() =~= prev);
    } else {
        assert(d[i] == raw[i]);
        lemma_select_get(d, unique, i);
        if has_flag(e.1.flags, UNIQUE) == unique {
            assert(prev.push((entry_key(e.0, e.1.flags), e.1)).drop_last() =~= prev);
        }
    }
}

/// Where the data section of the pack of `files` and `dirs` starts.
pub open spec fn data_start(files: Seq<StoredFile>, dirs: Seq<Seq<u8>>) -> nat {
    70 + toc_section(files).len() + dl_section(dirs).len()
}

/// The files of the pack (the pack-unique ones, or the others) as reading the
/// pack lists them: each path decoded, with offsets from the start of the pack.
pub open spec fn written_entries(files: Seq<StoredFile>, unique: bool, start: nat) -> Seq<
    (Seq<char>, MetaView),
> {
    shift_offsets(select_entries(raw_from(files, 0), unique), start)
}

/// The pack front of the pack that stores `files` and lists `dirs`.
pub open spec fn written_front(files: Seq<StoredFile>, dirs: Seq<Seq<u8>>) -> FrontView {
    let start = data_start(files, dirs);
    let toc = written_entries(files, false, start);
    FrontView {
        toc,
        directory_list: dirs_with_starts(dirs, toc),
        unique_files: written_entries(files, true, start),
    }
}

/// A pack of `files` and `dirs` that reading takes back: paths storable, file paths
/// distinct, 32-byte section digests, and a size that 64-bit offsets reach.
pub open spec fn pack_readable(files: Seq<StoredFile>, dirs: Seq<Seq<u8>>) -> bool {
    &&& files_storable(files)
    &&& forall|i: int| 0 <= i < dirs.len() ==> path_storable(#[trigger] dirs[i])
    &&& forall|i: int, j: int|
        0 <= i < j < files.len() ==> (#[trigger] files[i]).name != (#[trigger] files[j]).name
    &&& blake3_digest(toc_section(files)).len() == 32
    &&& blake3_digest(dl_section(dirs)).len() == 32
    &&& spec_pack(files, dirs).len() <= u64::MAX
}

/// Every file of a written pack has, at the place its entry gives, the data it
/// was written with.
proof fn lemma_written_files_intact(files: Seq<StoredFile>, dirs: Seq<Seq<u8>>, i: int)
    requires
        pack_readable(files, dirs),
        0 <= i < files.len(),
    ensures
        ({
            let start = data_start(files, dirs);
            let off = start + glob_of(files.take(i)).len();
            &&& off + files[i].data.len() <= spec_pack(files, dirs).len()
            &&& file_bytes(spec_pack(files, dirs), off, files[i].data.len()) == files[i].data
        }),
{
    let start = data_start(files, dirs);
    let data = spec_pack(files, dirs);
    let g = glob_of(files);
    let t = toc_section(files);
    let dsec = dl_section(dirs);
    let hdr = header_bytes(blake3_digest(t), blake3_digest(dsec));
    lemma_pow256_values();
    lemma_be_roundtrip(1, 2);
    assert(MAGIC@.len() == 4);
    assert(hdr.len() == 70);
    assert(data.len() == start + g.len());
    lemma_glob_slice(files, i);
    let off = glob_of(files.take(i)).len() as int;
    let n = files[i].data.len() as int;
    assert(data.subrange(start + off, start + off + n) =~= g.subrange(off, off + n));
}

/// Reading the pack front of the pack that stores `files` and lists `dirs` gives
/// back its table of contents, its directory list and its pack-unique files, with
/// every file found intact.
pub proof fn lemma_pack_reads_back(files: Seq<StoredFile>, dirs: Seq<Seq<u8>>)
    requires
        pack_readable(files, dirs),
    ensures
        spec_pack_front(spec_pack(files, dirs)) == Ok::<FrontView, ReadErrorView>(
            written_front(files, dirs),
        ),
{
    let t = toc_section(files);
    let dsec = dl_section(dirs);
    let g = glob_of(files);
    let h1 = blake3_digest(t);
    let h2 = blake3_digest(dsec);
    let hdr = header_bytes(h1, h2);
    let data = spec_pack(files, dirs);
    lemma_pow256_values();
    lemma_be_roundtrip(1, 2);
    assert(MAGIC@.len() == 4);
    assert(hdr.len() == 70);
    assert(data =~= hdr + t + dsec + g);
    let e = entries_from(files, 0);
    lemma_toc_entries_front(files, 0);
    let toc_end: int = 70 + t.len() as int;
    assert(data.subrange(70, 70 + e.len() as int + 4) =~= e + toc_end_marker());
    lemma_parse_toc_written(data, 70, files, 0);
    assert(data.subrange(70, toc_end) =~= t);
    assert(data.subrange(6, 38) =~= h1);
    let de = dirs_from(dirs);
    lemma_dl_entries_front(dirs);
    assert(data.subrange(toc_end, toc_end + de.len() as int + 4) =~= de + dl_end_marker());
    lemma_parse_dl_written(data, toc_end, dirs);
    let dl_end: int = toc_end + dsec.len() as int;
    assert(data.subrange(toc_end, dl_end) =~= dsec);
    assert(data.subrange(38, 70) =~= h2);
    let start = data_start(files, dirs);
    assert(dl_end == start);
    let raw = raw_from(files, 0);
    lemma_raw_decoded_distinct(files, 0);
    lemma_entries_map_distinct(raw, false);
    lemma_entries_map_distinct(raw, true);
    lemma_raw_from_index(files, 0);
    let p = |m: MetaView| !file_damaged(data, MetaView { offset: m.offset + start, ..m });
    assert forall|i: int| 0 <= i < raw.len() implies p(#[trigger] raw[i].1) by {
        lemma_written_files_intact(files, dirs, i);
    }
    lemma_select_all(raw, false, p);
    lemma_select_all(raw, true, p);
    let normal = written_entries(files, false, start);
    let unique = written_entries(files, true, start);
    let both = normal + unique;
    assert forall|j: int| 0 <= j < both.len() implies !file_damaged(data, #[trigger] both[j].1) by {
        if j < normal.len() {
            assert(p(select_entries(raw, false)[j].1));
        } else {
            assert(p(select_entries(raw, true)[j - normal.len()].1));
        }
    }
    lemma_none_damaged(data, both);
}

/// Each file written to a pack is listed under its path (without `__unique__/`
/// for a pack-unique file), among the pack-unique files or the others as its
/// flags say, with its flags, size and digest; and the
/// bytes of the pack at its place are the data it was written with.
pub proof fn lemma_file_reads_back(files: Seq<StoredFile>, dirs: Seq<Seq<u8>>, i: int)
    requires
        pack_readable(files, dirs),
        0 <= i < files.len(),
    ensures
        spec_pack_front(spec_pack(files, dirs)) matches Ok(front) && {
            let listed = if has_flag(files[i].flags, UNIQUE) {
                front.unique_files
            } else {
                front.toc
            };
            entries_get(listed, entry_key(files[i].name, files[i].flags)) matches Some(m) && {
                &&& m.hash == blake3_digest(files[i].data)
                &&& m.flags == files[i].flags
                &&& m.size == files[i].data.len()
                &&& file_bytes(spec_pack(files, dirs), m.offset, m.size) == files[i].data
            }
        },
{
    lemma_pack_reads_back(files, dirs);
    let start = data_start(files, dirs);
    let raw = raw_from(files, 0);
    let u = has_flag(files[i].flags, UNIQUE);
    lemma_raw_from_index(files, 0);
    lemma_raw_decoded_distinct(files, 0);
    lemma_select_get(raw, u, i);
    let sel = select_entries(raw, u);
    let k = entry_key(files[i].name, files[i].flags);
    lemma_key_position_shift(sel, start, k);
    lemma_written_files_intact(files, dirs, i);
}

} // verus!
