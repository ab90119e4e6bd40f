//! File bundles: a simple format that stores the files of a directory, each under
//! its path, behind a table of contents.
//!
//! A bundle is laid out as follows (integers big-endian): the header; for each file,
//! its path, a NUL byte and the offset of its record in the bundle (a `u64`); then
//! the records: for each file, its path, a NUL byte, its size (a `u64`) and its data.
use crate::compiling::append_bytes;
use crate::encoding::{be_bytes, lemma_be_roundtrip, lemma_pow256_values, u64_to_be_bytes};
use vstd::prelude::*;
use vstd::utf8::encode_utf8;

verus! {

/// The bytes every bundle starts with.
pub const FILE_HEADER: [u8; 22] = [
    0x00, 0x00, 0x69, 0x42, 0x46, 0x49, 0x4c, 0x45, 0x42, 0x55, 0x4e, 0x44, 0x4c, 0x45, 0x76, 0x30,
    0x2e, 0x30, 0x42, 0x69, 0x00, 0x00,
];

/// How far compiling a bundle has got, as reported to a progress callback.
#[derive(Debug)]
pub enum CompileStatus {
    /// A file is being added.
    Adding,
    /// A file has been added.
    Added,
    /// A directory was skipped.
    SkippedDirectory,
    /// The bundle is being written.
    WritingFile,
}

/// The record of a file: its path, a NUL byte, its size and its data.
pub open spec fn bundle_record(name: Seq<u8>, data: Seq<u8>) -> Seq<u8> {
    name + seq![0u8] + be_bytes(data.len(), 8) + data
}

/// The records of the files, one after another.
pub open spec fn bundle_records(files: Seq<(Seq<u8>, Seq<u8>)>) -> Seq<u8>
    decreases files.len(),
{
    if files.len() == 0 {
        seq![]
    } else {
        bundle_records(files.drop_last()) + bundle_record(files.last().0, files.last().1)
    }
}

/// The table of contents of the files, when the records start at `base`.
pub open spec fn bundle_toc(files: Seq<(Seq<u8>, Seq<u8>)>, base: nat) -> Seq<u8>
    decreases files.len(),
{
    if files.len() == 0 {
        seq![]
    } else {
        bundle_toc(files.drop_last(), base) + files.last().0 + seq![0u8] + be_bytes(
            base + bundle_records(files.drop_last()).len(),
            8,
        )
    }
}

/// The length of the table of contents of the files.
pub open spec fn bundle_toc_len(files: Seq<(Seq<u8>, Seq<u8>)>) -> nat
    decreases files.len(),
{
    if files.len() == 0 {
        0
    } else {
        bundle_toc_len(files.drop_last()) + files.last().0.len() + 9
    }
}

/// The bundle of the files, in order.
pub open spec fn spec_bundle(files: Seq<(Seq<u8>, Seq<u8>)>) -> Seq<u8> {
    FILE_HEADER@ + bundle_toc(files, 22 + bundle_toc_len(files)) + bundle_records(files)
}

/// The files as bytes: each path in UTF-8 with its data.
pub open spec fn file_bytes_of(files: Seq<(String, Vec<u8>)>) -> Seq<(Seq<u8>, Seq<u8>)> {
    files.map_values(|f: (String, Vec<u8>)| (encode_utf8(f.0@), f.1@))
}

/// `n` big-endian bytes are `n` bytes.
proof fn lemma_be_bytes_len(x: nat, n: nat)
    ensures
        be_bytes(x, n).len() == n,
    decreases n,
{
    if n > 0 {
        lemma_be_bytes_len(x / 256, (n - 1) as nat);
    }
}

/// The table of contents has the length that [`bundle_toc_len`] gives.
proof fn lemma_bundle_toc_len(files: Seq<(Seq<u8>, Seq<u8>)>, base: nat)
    ensures
        bundle_toc(files, base).len() == bundle_toc_len(files),
    decreases files.len(),
{
    if files.len() > 0 {
        lemma_bundle_toc_len(files.drop_last(), base);
        lemma_be_bytes_len(base + bundle_records(files.drop_last()).len(), 8);
    }
}

/// Dropping the last file shortens the records and the table of contents.
proof fn lemma_bundle_prefix_lens(files: Seq<(Seq<u8>, Seq<u8>)>)
    requires
        files.len() > 0,
    ensures
        bundle_records(files.drop_last()).len() <= bundle_records(files).len(),
        bundle_toc_len(files.drop_last()) <= bundle_toc_len(files),
{
}

/// The records and tables of contents of the first files are no longer than those
/// of all of them.
proof fn lemma_bundle_take_lens(files: Seq<(Seq<u8>, Seq<u8>)>, i: int)
    requires
        0 <= i <= files.len(),
    ensures
        bundle_records(files.take(i)).len() <= bundle_records(files).len(),
        bundle_toc_len(files.take(i)) <= bundle_toc_len(files),
    decreases files.len() - i,
{
    if i < files.len() {
        lemma_bundle_take_lens(files, i + 1);
        assert(files.take(i + 1).drop_last() =~= files.take(i));
        lemma_bundle_prefix_lens(files.take(i + 1));
    } else {
        assert(files.take(i) =~= files);
    }
}

/// Computes the table of contents length of the files.
fn toc_len_of(files: &Vec<(String, Vec<u8>)>) -> (r: u64)
    requires
        bundle_toc_len(file_bytes_of(files@)) <= u64::MAX,
    ensures
        r == bundle_toc_len(file_bytes_of(files@)),
{
    let ghost fs = file_bytes_of(files@);
    let mut total: u64 = 0;
    let mut i: usize = 0;
    while i < files.len()
        invariant
            i <= files@.len(),
            fs == file_bytes_of(files@),
            fs.len() == files@.len(),
            bundle_toc_len(fs) <= u64::MAX,
            total == bundle_toc_len(fs.take(i as int)),
        decreases files@.len() - i,
    {
        proof {
            assert(fs.take(i + 1).drop_last() =~= fs.take(i as int));
            lemma_bundle_take_lens(fs, i + 1);
        }
        let name_len = files[i].0.as_str().as_bytes().len();
        proof {
            assert(fs[i as int] == (encode_utf8(files@[i as int].0@), files@[i as int].1@));
        }
        total = total + name_len as u64 + 9;
        i = i + 1;
    }
    proof {
        assert(fs.take(files@.len() as int) =~= fs);
    }
    total
}

/// Lays out the bundle of the files, in order.
pub fn bundle_bytes(files: &Vec<(String, Vec<u8>)>) -> (r: Vec<u8>)
    requires
        spec_bundle(file_bytes_of(files@)).len() <= u64::MAX,
    ensures
        r@ == spec_bundle(file_bytes_of(files@)),
{
    let ghost fs = file_bytes_of(files@);
    proof {
        lemma_bundle_take_lens(fs, 0);
        lemma_pow256_values();
        lemma_bundle_toc_len(fs, 22 + bundle_toc_len(fs));
    }
    let toc_len = toc_len_of(files);
    let data_begins: u64 = 22 + toc_len;
    proof {
        lemma_bundle_toc_len(fs, data_begins as nat);
    }
    let mut toc: Vec<u8> = Vec::new();
    let mut records: Vec<u8> = Vec::new();
    let mut i: usize = 0;
    while i < files.len()
        invariant
            i <= files@.len(),
            fs == file_bytes_of(files@),
            fs.len() == files@.len(),
            data_begins == 22 + bundle_toc_len(fs),
            spec_bundle(fs).len() <= u64::MAX,
            toc@ == bundle_toc(fs.take(i as int), data_begins as nat),
            records@ == bundle_records(fs.take(i as int)),
            bundle_toc(fs, data_begins as nat).len() == bundle_toc_len(fs),
        decreases files@.len() - i,
    {
        let ghost t = fs.take(i as int);
        proof {
            assert(fs.take(i + 1).drop_last() =~= t);
            assert(fs.take(i + 1).last() == fs[i as int]);
            assert(fs[i as int] == (encode_utf8(files@[i as int].0@), files@[i as int].1@));
            lemma_bundle_take_lens(fs, i + 1);
            lemma_bundle_take_lens(fs, i as int);
        }
        let name = files[i].0.as_str().as_bytes();
        let data = files[i].1.as_slice();
        let offset: u64 = data_begins + records.len() as u64;
        append_bytes(&mut toc, name);
        toc.push(0u8);
        let offset_bytes = u64_to_be_bytes(offset);
        append_bytes(&mut toc, offset_bytes.as_slice());
        append_bytes(&mut records, name);
        records.push(0u8);
        let size_bytes = u64_to_be_bytes(data.len() as u64);
        append_bytes(&mut records, size_bytes.as_slice());
        append_bytes(&mut records, data);
        proof {
            assert(toc@ =~= bundle_toc(fs.take(i + 1), data_begins as nat));
            assert(records@ =~= bundle_records(fs.take(i + 1)));
        }
        i = i + 1;
    }
    proof {
        assert(fs.take(files@.len() as int) =~= fs);
    }
    let mut out: Vec<u8> = Vec::new();
    append_bytes(&mut out, &FILE_HEADER);
    append_bytes(&mut out, toc.as_slice());
    append_bytes(&mut out, records.as_slice());
    out
}

/// The records of the files are as long as their paths, NUL bytes, sizes and data.
proof fn lemma_bundle_records_len(files: Seq<(Seq<u8>, Seq<u8>)>)
    ensures
        bundle_records(files).len() == bundle_toc_len(files) + data_len(files),
    decreases files.len(),
{
    if files.len() > 0 {
        lemma_bundle_records_len(files.drop_last());
        lemma_be_bytes_len(files.last().1.len(), 8);
    }
}

/// The total length of the data of the files.
pub open spec fn data_len(files: Seq<(Seq<u8>, Seq<u8>)>) -> nat
    decreases files.len(),
{
    if files.len() == 0 {
        0
    } else {
        data_len(files.drop_last()) + files.last().1.len()
    }
}

/// Whether the bundle of the files is small enough for its offsets and sizes to fit
/// in 64 bits, as [`bundle_bytes`] needs.
pub fn bundle_len_fits(files: &Vec<(String, Vec<u8>)>) -> (r: bool)
    ensures
        r == (spec_bundle(file_bytes_of(files@)).len() <= u64::MAX),
{
    let ghost fs = file_bytes_of(files@);
    proof {
        lemma_bundle_toc_len(fs, 22 + bundle_toc_len(fs));
        lemma_bundle_records_len(fs);
        assert(FILE_HEADER@.len() == 22);
        assert(spec_bundle(fs).len() == 22 + 2 * bundle_toc_len(fs) + data_len(fs));
    }
    let mut total: u64 = 22;
    let mut i: usize = 0;
    while i < files.len()
        invariant
            i <= files@.len(),
            fs == file_bytes_of(files@),
            fs.len() == files@.len(),
            total == 22 + 2 * bundle_toc_len(fs.take(i as int)) + data_len(fs.take(i as int)),
            spec_bundle(fs).len() == 22 + 2 * bundle_toc_len(fs) + data_len(fs),
        decreases files@.len() - i,
    {
        proof {
            assert(fs.take(i + 1).drop_last() =~= fs.take(i as int));
            assert(fs[i as int] == (encode_utf8(files@[i as int].0@), files@[i as int].1@));
        }
        let name_len = files[i].0.as_str().as_bytes().len() as u64;
        let data_len_i = files[i].1.len() as u64;
        proof {
            assert(name_len == fs[i as int].0.len());
            assert(data_len_i == fs[i as int].1.len());
        }
        let step = match name_len.checked_add(9) {
            Some(x) => x,
            None => {
                proof { lemma_bundle_growth(fs, i as int); }
                return false;
            },
        };
        let step2 = match step.checked_add(step) {
            Some(x) => x,
            None => {
                proof { lemma_bundle_growth(fs, i as int); }
                return false;
            },
        };
        let step3 = match step2.checked_add(data_len_i) {
            Some(x) => x,
            None => {
                proof { lemma_bundle_growth(fs, i as int); }
                return false;
            },
        };
        total = match total.checked_add(step3) {
            Some(x) => x,
            None => {
                proof { lemma_bundle_growth(fs, i as int); }
                return false;
            },
        };
        i = i + 1;
    }
    proof {
        assert(fs.take(files@.len() as int) =~= fs);
    }
    true
}

/// The bundle of all files is at least as long as that of the first ones plus
/// the next file's table entry, record and data.
proof fn lemma_bundle_growth(fs: Seq<(Seq<u8>, Seq<u8>)>, i: int)
    requires
        0 <= i < fs.len(),
    ensures
        22 + 2 * bundle_toc_len(fs.take(i)) + data_len(fs.take(i)) + 2 * (fs[i].0.len() + 9) + fs[i].1.len()
            <= 22 + 2 * bundle_toc_len(fs) + data_len(fs),
    decreases fs.len() - i,
{
    assert(fs.take(i + 1).drop_last() =~= fs.take(i));
    lemma_take_lens_data(fs, i + 1);
}

/// The first files have no more table or data than all of them.
proof fn lemma_take_lens_data(fs: Seq<(Seq<u8>, Seq<u8>)>, k: int)
    requires
        0 <= k <= fs.len(),
    ensures
        bundle_toc_len(fs.take(k)) <= bundle_toc_len(fs),
        data_len(fs.take(k)) <= data_len(fs),
    decreases fs.len() - k,
{
    if k < fs.len() {
        assert(fs.take(k + 1).drop_last() =~= fs.take(k));
        lemma_take_lens_data(fs, k + 1);
    } else {
        assert(fs.take(k) =~= fs);
    }
}

} // verus!
