//! Reading asset packs held in memory.
use crate::digest::bytes_equal;
use crate::errors::{ReadError, ReadErrorView, ReadResult};
use crate::file_reader::{spec_file_contents, AssetFileReader, DirectFileReader};
use crate::format::{FileMeta, MetaView};
use crate::pack_front::{read_pack_front, DirectoryEntry, PackFront};
use crate::pack_spec::{spec_pack_front, FrontView};
use crate::reading::{spec_validate_header, spec_validate_version, validate_header, validate_version};
use crate::toc_map::{
    entries_get, keys_unique, lemma_view_get, toc_entries, toc_get, toc_get_index, toc_len,
    view_entries,
};
use vstd::prelude::*;
use vstd::utf8::{encode_utf8, encode_utf8_decode_utf8};

verus! {

/// Compares two strings.
pub fn str_equal(a: &str, b: &str) -> (r: bool)
    ensures
        r == (a@ == b@),
{
    let r = bytes_equal(a.as_bytes(), b.as_bytes());
    proof {
        encode_utf8_decode_utf8(a@);
        encode_utf8_decode_utf8(b@);
    }
    r
}

/// The metadata stored for `path` in the entries `files`.
pub open spec fn lookup(files: Seq<(Seq<char>, MetaView)>, path: Seq<char>) -> Option<MetaView> {
    entries_get(files, path)
}

/// Whether `path` is one of the directories of the pack front.
pub open spec fn has_dir(front: FrontView, path: Seq<char>) -> bool {
    exists|i: int| 0 <= i < front.directory_list.len() && #[trigger] front.directory_list[i].0 == path
}

/// The files of `files` from position `i` on whose paths, in UTF-8, start with
/// `prefix`, up to the first one that does not.
pub open spec fn files_run(files: Seq<(Seq<char>, MetaView)>, i: int, prefix: Seq<u8>) -> Seq<
    (Seq<char>, MetaView),
>
    decreases files.len() - i,
{
    if i < 0 || i >= files.len() || !prefix.is_prefix_of(encode_utf8(files[i].0)) {
        seq![]
    } else {
        seq![files[i]] + files_run(files, i + 1, prefix)
    }
}

/// The run of files from position `i` whose paths start with `prefix` is the
/// contiguous stretch of `files` from `i` on: every file of it starts with
/// `prefix` (nested ones included, whatever follows the prefix), none is left
/// out, and it stops only at the end or at the first file that does not start
/// with `prefix`.
pub proof fn lemma_files_run_is_stretch(files: Seq<(Seq<char>, MetaView)>, i: int, prefix: Seq<u8>)
    requires
        0 <= i <= files.len(),
    ensures
        i + files_run(files, i, prefix).len() <= files.len(),
        files_run(files, i, prefix) == files.subrange(i, i + files_run(files, i, prefix).len()),
        forall|k: int|
            i <= k < i + files_run(files, i, prefix).len() ==> prefix.is_prefix_of(
                encode_utf8(#[trigger] files[k].0),
            ),
        i + files_run(files, i, prefix).len() < files.len() ==> !prefix.is_prefix_of(
            encode_utf8(files[i + files_run(files, i, prefix).len()].0),
        ),
    decreases files.len() - i,
{
    if i < files.len() && prefix.is_prefix_of(encode_utf8(files[i].0)) {
        lemma_files_run_is_stretch(files, i + 1, prefix);
        let rest = files_run(files, i + 1, prefix);
        assert(files_run(files, i, prefix) == seq![files[i]] + rest);
        assert(seq![files[i]] + rest =~= files.subrange(i, i + 1 + rest.len()));
    } else {
        assert(files_run(files, i, prefix) =~= Seq::<(Seq<char>, MetaView)>::empty());
        assert(files.subrange(i, i) =~= Seq::<(Seq<char>, MetaView)>::empty());
    }
}

/// The index of the directory `path` in the directory list, if it is there.
pub open spec fn dir_position(front: FrontView, path: Seq<char>) -> int {
    choose|i: int| 0 <= i < front.directory_list.len() && #[trigger] front.directory_list[i].0 == path
}

/// Whether a path is a directory of a pack, and where its first file is.
#[derive(Clone, Copy, Debug, PartialEq, Eq, Structural)]
pub enum DirectoryInfo {
    /// If the requested path does not exist in the pack as a directory.
    NotADirectory,
    /// If the requested path is a directory. It stores the index of the first file in the
    /// directory in the TOC.
    Directory(usize),
}

/// The position of the first file of `files` whose path, in UTF-8, starts with
/// `prefix`, if any.
pub open spec fn first_with_prefix(files: Seq<(Seq<char>, MetaView)>, prefix: Seq<u8>) -> Option<int>
    decreases files.len(),
{
    if files.len() == 0 {
        None
    } else {
        match first_with_prefix(files.drop_last(), prefix) {
            Some(i) => Some(i),
            None => if prefix.is_prefix_of(encode_utf8(files.last().0)) {
                Some(files.len() - 1)
            } else {
                None
            },
        }
    }
}

/// Whether `s` starts with `prefix`.
fn bytes_start_with(s: &[u8], prefix: &[u8]) -> (r: bool)
    ensures
        r == prefix@.is_prefix_of(s@),
{
    if s.len() < prefix.len() {
        return false;
    }
    let mut i: usize = 0;
    while i < prefix.len()
        invariant
            i <= prefix@.len(),
            prefix@.len() <= s@.len(),
            forall|j: int| 0 <= j < i ==> prefix@[j] == s@[j],
        decreases prefix.len() - i,
    {
        if prefix[i] != s[i] {
            return false;
        }
        i = i + 1;
    }
    proof {
        assert(prefix@ =~= s@.subrange(0, prefix@.len() as int));
    }
    true
}

/// Create an instance of this struct to read an asset pack held in memory.
///
/// Many of its functions read the pack front when it has not been read yet: the
/// first such call checks every file of the pack against its digest.
pub struct AssetPackReader {
    data: Vec<u8>,
    pack_front_cache: Option<PackFront>,
    version: u16,
}

impl AssetPackReader {
    /// The bytes of the pack.
    pub closed spec fn pack(&self) -> Seq<u8> {
        self.data@
    }

    /// Whether the pack front has been read and kept.
    pub closed spec fn front_cached(&self) -> bool {
        self.pack_front_cache is Some
    }

    /// The pack starts with a valid header, and a cached pack front is what the
    /// pack's bytes yield.
    pub closed spec fn wf(&self) -> bool {
        &&& spec_validate_header(self.data@) is Ok
        &&& spec_validate_version(self.data@) == Ok::<u16, ReadErrorView>(self.version)
        &&& self.pack_front_cache matches Some(f) ==> spec_pack_front(self.data@) == Ok::<
            FrontView,
            ReadErrorView,
        >(f@) && keys_unique(toc_entries(f.toc)) && keys_unique(toc_entries(f.unique_files))
    }

    /// Creates a new [`AssetPackReader`] from the bytes of a pack and checks its
    /// header and version.
    ///
    /// # Errors
    /// Fails if the pack does not start with the magic bytes or if the version of
    /// the format is not supported.
    pub fn new(data: Vec<u8>) -> (r: ReadResult<Self>)
        ensures
            match (spec_validate_header(data@), spec_validate_version(data@)) {
                (Err(e), _) => r matches Err(re) && re@ == e,
                (Ok(()), Err(e)) => r matches Err(re) && re@ == e,
                (Ok(()), Ok(_)) => r matches Ok(reader) && reader.wf() && reader.pack() == data@,
            },
    {
        match validate_header(data.as_slice()) {
            Ok(()) => {},
            Err(e) => {
                return Err(e);
            },
        }
        let version = match validate_version(data.as_slice()) {
            Ok(v) => v,
            Err(e) => {
                return Err(e);
            },
        };
        Ok(AssetPackReader { data, pack_front_cache: None, version })
    }

    /// Gets the version of the format of the asset pack file.
    pub fn get_version(&self) -> (r: u16)
        requires
            self.wf(),
        ensures
            spec_validate_version(self.pack()) == Ok::<u16, ReadErrorView>(r),
            r <= 1,
    {
        self.version
    }

    /// Returns the pack front of the asset pack.
    ///
    /// The first time the pack front is requested, it is read and every file is
    /// checked against its digest; later calls return the cached pack front.
    pub fn get_pack_front(&mut self) -> (r: ReadResult<&PackFront>)
        requires
            old(self).wf(),
        ensures
            final(self).wf(),
            final(self).pack() == old(self).pack(),
            r is Ok ==> final(self).front_cached(),
            old(self).front_cached() ==> final(self).front_cached(),
            match spec_pack_front(old(self).pack()) {
                Ok(f) => r matches Ok(front) && front@ == f && keys_unique(toc_entries(front.toc))
                    && keys_unique(toc_entries(front.unique_files)),
                Err(e) => r matches Err(re) && re@ == e,
            },
    {
        if self.pack_front_cache.is_none() {
            let front = match read_pack_front(self.data.as_slice()) {
                Ok(f) => f,
                Err(e) => {
                    return Err(e);
                },
            };
            self.pack_front_cache = Some(front);
        }
        match &self.pack_front_cache {
            Some(f) => Ok(f),
            None => Err(ReadError::InvalidPackFile),
        }
    }

    /// Returns an [`AssetFileReader`] for a specified file.
    ///
    /// # Parameters
    /// - `path`: The path of the file to be read relative to the assets directory (without `./`)
    ///
    /// # Errors
    /// Fails if the pack front cannot be read, if the file is not in the pack
    /// ([`ReadError::FileNotFound`]), or if a compressed file cannot be decompressed.
    pub fn get_file_reader(&mut self, path: &str) -> (r: ReadResult<AssetFileReader<'_>>)
        requires
            old(self).wf(),
        ensures
            final(self).wf(),
            final(self).pack() == old(self).pack(),
            match spec_pack_front(old(self).pack()) {
                Err(e) => r matches Err(re) && re@ == e,
                Ok(f) => match lookup(f.toc, path@) {
                    None => r matches Err(re) && re@ == ReadErrorView::FileNotFound(path@),
                    Some(m) => file_reader_result(old(self).pack(), m, r),
                },
            },
    {
        let meta = match self.get_pack_front() {
            Ok(front) => {
                proof {
                    lemma_view_get(toc_entries(front.toc), path@);
                }
                toc_get(&front.toc, path)
            },
            Err(e) => {
                return Err(e);
            },
        };
        match meta {
            None => Err(ReadError::FileNotFound(path.to_owned())),
            Some(meta) => {
                let file_reader = DirectFileReader::new(self.data.as_slice(), meta);
                AssetFileReader::new(file_reader, meta)
            },
        }
    }

    /// Returns an [`AssetFileReader`] for a specified file once the pack front has
    /// been read, as [`Self::get_file_reader`] does.
    pub(crate) fn cached_file_reader(&self, path: &str) -> (r: ReadResult<AssetFileReader<'_>>)
        requires
            self.wf(),
            self.front_cached(),
        ensures
            match spec_pack_front(self.pack()) {
                Err(e) => r matches Err(re) && re@ == e,
                Ok(f) => match lookup(f.toc, path@) {
                    None => r matches Err(re) && re@ == ReadErrorView::FileNotFound(path@),
                    Some(m) => file_reader_result(self.pack(), m, r),
                },
            },
    {
        let meta = match &self.pack_front_cache {
            Some(front) => {
                proof {
                    lemma_view_get(toc_entries(front.toc), path@);
                }
                toc_get(&front.toc, path)
            },
            None => {
                return Err(ReadError::InvalidPackFile);
            },
        };
        match meta {
            None => Err(ReadError::FileNotFound(path.to_owned())),
            Some(meta) => {
                let file_reader = DirectFileReader::new(self.data.as_slice(), meta);
                AssetFileReader::new(file_reader, meta)
            },
        }
    }

    /// Returns an [`AssetFileReader`] for a specified pack-unique file.
    ///
    /// # Parameters
    /// - `path`: The path of the pack-unique file relative to the `__unique__` directory (without a leading `__unique__/`).
    ///
    /// # Errors
    /// Fails if the pack front cannot be read, if the file is not in the pack
    /// ([`ReadError::UniqueFileNotFound`]), or if a compressed file cannot be decompressed.
    pub fn get_unique_file_reader(&mut self, path: &str) -> (r: ReadResult<AssetFileReader<'_>>)
        requires
            old(self).wf(),
        ensures
            final(self).wf(),
            final(self).pack() == old(self).pack(),
            match spec_pack_front(old(self).pack()) {
                Err(e) => r matches Err(re) && re@ == e,
                Ok(f) => match lookup(f.unique_files, path@) {
                    None => r matches Err(re) && re@ == ReadErrorView::UniqueFileNotFound(path@),
                    Some(m) => file_reader_result(old(self).pack(), m, r),
                },
            },
    {
        let meta = match self.get_pack_front() {
            Ok(front) => {
                proof {
                    lemma_view_get(toc_entries(front.unique_files), path@);
                }
                toc_get(&front.unique_files, path)
            },
            Err(e) => {
                return Err(e);
            },
        };
        match meta {
            None => Err(ReadError::UniqueFileNotFound(path.to_owned())),
            Some(meta) => {
                let file_reader = DirectFileReader::new(self.data.as_slice(), meta);
                AssetFileReader::new(file_reader, meta)
            },
        }
    }

    /// Checks if a file exists in the asset pack.
    ///
    /// # Errors
    /// Returns an error if it fails to read the pack front.
    pub fn has_file(&mut self, path: &str) -> (r: ReadResult<bool>)
        requires
            old(self).wf(),
        ensures
            final(self).wf(),
            final(self).pack() == old(self).pack(),
            match spec_pack_front(old(self).pack()) {
                Err(e) => r matches Err(re) && re@ == e,
                Ok(f) => r == Ok::<bool, ReadError>(lookup(f.toc, path@) is Some),
            },
    {
        match self.get_pack_front() {
            Ok(front) => {
                proof {
                    lemma_view_get(toc_entries(front.toc), path@);
                }
                Ok(toc_get(&front.toc, path).is_some())
            },
            Err(e) => Err(e),
        }
    }

    /// Returns the flags for a specified file.
    ///
    /// # Errors
    /// Returns errors if getting the pack front fails, or [`ReadError::FileNotFound`].
    pub fn get_flags(&mut self, path: &str) -> (r: ReadResult<u8>)
        requires
            old(self).wf(),
        ensures
            final(self).wf(),
            final(self).pack() == old(self).pack(),
            match spec_pack_front(old(self).pack()) {
                Err(e) => r matches Err(re) && re@ == e,
                Ok(f) => match lookup(f.toc, path@) {
                    None => r matches Err(re) && re@ == ReadErrorView::FileNotFound(path@),
                    Some(m) => r == Ok::<u8, ReadError>(m.flags),
                },
            },
    {
        match self.get_pack_front() {
            Ok(front) => {
                proof {
                    lemma_view_get(toc_entries(front.toc), path@);
                }
                match toc_get(&front.toc, path) {
                    Some(meta) => Ok(meta.flags),
                    None => Err(ReadError::FileNotFound(path.to_owned())),
                }
            },
            Err(e) => Err(e),
        }
    }

    /// Checks whether a specified path is a directory in the pack file.
    ///
    /// # Parameters
    /// - `path`: The path of the directory relative to the assets directory (without ./)
    ///
    /// # Errors
    /// Returns an error if getting the pack front fails.
    pub fn has_directory(&mut self, path: &str) -> (r: ReadResult<bool>)
        requires
            old(self).wf(),
        ensures
            final(self).wf(),
            final(self).pack() == old(self).pack(),
            match spec_pack_front(old(self).pack()) {
                Err(e) => r matches Err(re) && re@ == e,
                Ok(f) => r == Ok::<bool, ReadError>(has_dir(f, path@)),
            },
    {
        match self.get_pack_front() {
            Ok(front) => {
                let found = find_directory(&front.directory_list, path);
                proof {
                    let f = front@;
                    match found {
                        Some(i) => {
                            assert(f.directory_list[i as int].0 == path@);
                        },
                        None => {
                            assert forall|i: int| 0 <= i < f.directory_list.len() implies f.directory_list[i].0 != path@ by {
                                assert(f.directory_list[i].0 == front.directory_list@[i].path@);
                            }
                        },
                    }
                }
                Ok(found.is_some())
            },
            Err(e) => Err(e),
        }
    }

    /// Tells whether `path` (which ends with a slash) is a directory of the pack by
    /// looking for the first file whose path starts with it.
    ///
    /// # Errors
    /// Returns an error if getting the pack front fails.
    pub fn get_directory_info(&mut self, path: &str) -> (r: ReadResult<DirectoryInfo>)
        requires
            old(self).wf(),
        ensures
            final(self).wf(),
            final(self).pack() == old(self).pack(),
            match spec_pack_front(old(self).pack()) {
                Err(e) => r matches Err(re) && re@ == e,
                Ok(f) => match first_with_prefix(f.toc, encode_utf8(path@)) {
                    Some(i) => r == Ok::<DirectoryInfo, ReadError>(DirectoryInfo::Directory(i as usize)),
                    None => r == Ok::<DirectoryInfo, ReadError>(DirectoryInfo::NotADirectory),
                },
            },
    {
        match self.get_pack_front() {
            Ok(_) => {},
            Err(e) => {
                return Err(e);
            },
        }
        let front = match &self.pack_front_cache {
            Some(f) => f,
            None => {
                return Err(ReadError::InvalidPackFile);
            },
        };
        let ghost files = front@.toc;
        let n = toc_len(&front.toc);
        let prefix = path.as_bytes();
        let mut i: usize = 0;
        proof {
            assert(files.take(0) =~= Seq::<(Seq<char>, MetaView)>::empty());
        }
        while i < n
            invariant
                i <= n,
                n == toc_entries(front.toc).len(),
                files == view_entries(toc_entries(front.toc)),
                prefix@ == encode_utf8(path@),
                first_with_prefix(files.take(i as int), prefix@) is None,
                self.wf(),
                self.pack() == old(self).pack(),
                spec_pack_front(old(self).pack()) == Ok::<FrontView, ReadErrorView>(front@),
            decreases n - i,
        {
            let entry = toc_get_index(&front.toc, i);
            proof {
                assert(files.take(i + 1).drop_last() =~= files.take(i as int));
                assert(files[i as int].0 == toc_entries(front.toc)[i as int].0);
            }
            match entry {
                Some((name, _meta)) => {
                    if bytes_start_with(name.as_str().as_bytes(), prefix) {
                        proof {
                            lemma_first_prefix_extends(files, prefix@, i as int + 1);
                        }
                        return Ok(DirectoryInfo::Directory(i));
                    }
                },
                None => {},
            }
            i = i + 1;
        }
        proof {
            assert(files.take(n as int) =~= files);
        }
        Ok(DirectoryInfo::NotADirectory)
    }

    /// Returns all the files of a directory (recursively), with their metadata, in
    /// the order of the table of contents.
    ///
    /// # Parameters
    /// - `path`: The path of the directory relative to the assets directory (without ./)
    ///
    /// # Errors
    /// Returns an error if getting the pack front fails, or
    /// [`ReadError::DirectoryNotFound`] if the directory is not in the pack.
    pub fn iter_directory(&mut self, path: &str) -> (r: ReadResult<Vec<(String, FileMeta)>>)
        requires
            old(self).wf(),
        ensures
            final(self).wf(),
            final(self).pack() == old(self).pack(),
            match spec_pack_front(old(self).pack()) {
                Err(e) => r matches Err(re) && re@ == e,
                Ok(f) => if has_dir(f, path@) {
                    r matches Ok(files) && files@.map_values(|e: (String, FileMeta)| (e.0@, e.1@))
                        == files_run(
                        f.toc,
                        f.directory_list[dir_position(f, path@)].1 as int,
                        encode_utf8(path@) + seq![0x2fu8],
                    )
                } else {
                    r matches Err(re) && re@ == ReadErrorView::DirectoryNotFound(path@)
                },
            },
    {
        let front = match self.get_pack_front() {
            Ok(front) => front,
            Err(e) => {
                return Err(e);
            },
        };
        let found = find_directory(&front.directory_list, path);
        let index = match found {
            Some(i) => i,
            None => {
                proof {
                    let f = front@;
                    assert forall|i: int| 0 <= i < f.directory_list.len() implies f.directory_list[i].0 != path@ by {
                        assert(f.directory_list[i].0 == front.directory_list@[i].path@);
                    }
                }
                return Err(ReadError::DirectoryNotFound(path.to_owned()));
            },
        };
        let start = front.directory_list[index].first_file;
        proof {
            let f = front@;
            assert(f.directory_list[index as int].0 == path@);
            let k = dir_position(f, path@);
            assert(f.directory_list[k].0 == path@);
            assert(f.directory_list[k].1 == f.directory_list[index as int].1);
        }
        Ok(collect_run(&front.toc, start, path))
    }
}

/// What the result of asking for the reader of the file `m` of the pack `pack` is.
pub open spec fn file_reader_result(pack: Seq<u8>, m: MetaView, r: ReadResult<AssetFileReader>) -> bool {
    &&& match r {
        Ok(fr) => spec_file_contents(pack, m) == Some(fr.contents()) && fr.position() == 0,
        Err(e) => e@ == ReadErrorView::IoError(
            crate::errors::IoErrorKind::Other,
            crate::errors::ReadStepView::DecompressFile(m),
        ),
    }
    &&& spec_file_contents(pack, m) is None ==> r is Err
}

/// The index of the directory `path` in `dirs`, if it is there; all directories
/// with that path have the same first file.
fn find_directory(dirs: &Vec<DirectoryEntry>, path: &str) -> (r: Option<usize>)
    ensures
        match r {
            Some(i) => i < dirs@.len() && dirs@[i as int].path@ == path@,
            None => forall|i: int| 0 <= i < dirs@.len() ==> dirs@[i].path@ != path@,
        },
{
    let mut i: usize = 0;
    while i < dirs.len()
        invariant
            i <= dirs@.len(),
            forall|j: int| 0 <= j < i ==> dirs@[j].path@ != path@,
        decreases dirs.len() - i,
    {
        if str_equal(dirs[i].path.as_str(), path) {
            return Some(i);
        }
        i = i + 1;
    }
    None
}

/// Collects the files of `toc` from position `start` on whose paths start with
/// `dir` and a slash, up to the first one that does not.
fn collect_run(toc: &indexmap::IndexMap<String, FileMeta>, start: usize, dir: &str) -> (r: Vec<(String, FileMeta)>)
    ensures
        r@.map_values(|e: (String, FileMeta)| (e.0@, e.1@)) == files_run(
            view_entries(toc_entries(*toc)),
            start as int,
            encode_utf8(dir@) + seq![0x2fu8],
        ),
{
    let ghost files = view_entries(toc_entries(*toc));
    let ghost prefix = encode_utf8(dir@) + seq![0x2fu8];
    let len = toc_len(toc);
    let dir_bytes = dir.as_bytes();
    let mut out: Vec<(String, FileMeta)> = Vec::new();
    let mut i = start;
    proof {
        assert(out@.map_values(|e: (String, FileMeta)| (e.0@, e.1@)) + files_run(files, start as int, prefix) =~= files_run(files, start as int, prefix));
    }
    while i < len
        invariant
            start <= i,
            len == files.len(),
            files == view_entries(toc_entries(*toc)),
            dir_bytes@ == encode_utf8(dir@),
            prefix == encode_utf8(dir@) + seq![0x2fu8],
            out@.map_values(|e: (String, FileMeta)| (e.0@, e.1@)) + files_run(files, i as int, prefix)
                == files_run(files, start as int, prefix),
        ensures
            out@.map_values(|e: (String, FileMeta)| (e.0@, e.1@)) + files_run(files, i as int, prefix)
                == files_run(files, start as int, prefix),
            files_run(files, i as int, prefix) =~= Seq::<(Seq<char>, MetaView)>::empty(),
        decreases len - i,
    {
        let e = match toc_get_index(toc, i) {
            Some(e) => e,
            None => {
                break;
            },
        };
        assert(files[i as int] == (e.0@, e.1@));
        if !crate::pack_front::starts_with_dir(e.0.as_str().as_bytes(), dir_bytes) {
            assert(files_run(files, i as int, prefix) =~= Seq::<(Seq<char>, MetaView)>::empty());
            break;
        }
        let item = (e.0.clone(), *e.1);
        proof {
            let run = files_run(files, i as int, prefix);
            assert(run == seq![files[i as int]] + files_run(files, i + 1, prefix));
            assert(out@.push(item).map_values(|e: (String, FileMeta)| (e.0@, e.1@)) =~= out@.map_values(|e: (String, FileMeta)| (e.0@, e.1@)).push(files[i as int]));
            assert(out@.map_values(|e: (String, FileMeta)| (e.0@, e.1@)).push(files[i as int]) + files_run(files, i + 1, prefix)
                =~= out@.map_values(|e: (String, FileMeta)| (e.0@, e.1@)) + run);
        }
        out.push(item);
        i = i + 1;
    }
    proof {
        assert(out@.map_values(|e: (String, FileMeta)| (e.0@, e.1@)) + Seq::<(Seq<char>, MetaView)>::empty() =~= out@.map_values(|e: (String, FileMeta)| (e.0@, e.1@)));
    }
    out
}

/// A file found among the first files is the one found among more of them.
proof fn lemma_first_prefix_extends(files: Seq<(Seq<char>, MetaView)>, prefix: Seq<u8>, k: int)
    requires
        0 <= k <= files.len(),
        first_with_prefix(files.take(k), prefix) is Some,
    ensures
        first_with_prefix(files, prefix) == first_with_prefix(files.take(k), prefix),
    decreases files.len() - k,
{
    if k < files.len() {
        assert(files.take(k + 1).drop_last() =~= files.take(k));
        lemma_first_prefix_extends(files, prefix, k + 1);
    } else {
        assert(files.take(k) =~= files);
    }
}

} // verus!
