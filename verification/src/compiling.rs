//! Compiling assets into an asset pack.
use crate::compression::{compress_asset, lz4_content, lz4_frame};
use crate::config::{CompressionOptions, Configuration, OptionTable, OptionValueView, UncookerSettings};
use crate::digest::{blake3_digest, hash_bytes};
use crate::encoding::{be_bytes, lemma_be_roundtrip, lemma_pow256_values, u16_to_be_bytes, u64_to_be_bytes};
use crate::format::{encode_meta, MetaView, FORMAT_VERSION, MAGIC};
use crate::pack_layout::{
    dl_end_marker, dl_entries_bytes, dl_section, encode_toc_entry, glob_of, header_bytes, meta_of,
    spec_pack, toc_end_marker, toc_entries_bytes, toc_section, StoredFile,
};
use crate::reading::UNIQUE_PREFIX;
use crate::format::unique_prefix;
use crate::uncooking::{distinct_names, names_of, uncooker_by_ext, uncooker_by_name, AssetUncooker, AssetUncookers, UncookRequest, UncookerInfoView, TextAssetUncooker};
use vstd::prelude::*;
use vstd::slice::slice_subrange;
use vstd::string::StringExecFns;
use vstd::utf8::encode_utf8;

verus! {

/// A representation of the compile steps.
#[derive(Debug)]
pub enum CompileStep {
    /// Validating asset directory. Stores the path to the asset directory.
    ValidateAssetDir(String),
    /// Writing the header for an asset pack.
    WriteHeader,
    /// Reading an asset file from disk. Stores the path to the asset file.
    ReadAssetFile(String),
    /// Compressing an asset file. Stores the path to the asset file.
    CompressAsset(String),
    /// Writing TOC entries of the asset file, and writing the asset file data to a temporary blob.
    /// Stores the path to the asset file.
    PreliminaryWrite(String),
    /// Writing the Table of Contents.
    WriteTOC,
    /// Writing the directory list.
    WriteDirectoryList,
    /// Copying asset blob from temporary file to the asset pack.
    CopyData,
    /// Write generated hashes of various componenets of the pack.
    WriteHashes,
    /// Opening the file to output the asset pack to.
    OpenOutputFile(String),
}

/// Errors raised from compiling asset packs
#[derive(Debug)]
pub enum CompileError {
    /// The `asset_dir` passed in is not a directory
    NotADirectory {
        /// The passed in asset "directory"
        path: String,
    },
    /// The `asset_dir` passed in is empty
    EmptyDirectory {
        /// The passed in asset directory.
        path: String,
    },
    /// Input/output errors, and failures of the compressor
    IoError {
        /// The compile step at which the error occured.
        step: CompileStep,
    },
    /// Errors from recursively reading a directory
    WalkDirError {
        /// What went wrong.
        message: String,
    },
}

/// Shorthand type for [`Result<T, CompileError>`]
pub type CompileResult<T> = Result<T, CompileError>;

/// An entry of the asset directory, as the directory walk yields it.
pub struct AssetInput {
    /// The path of the entry relative to the asset directory, with `/` between components.
    pub path: String,
    /// The extension of the entry's path, if it has one.
    pub extension: Option<String>,
    /// Whether the entry is a directory.
    pub is_dir: bool,
    /// The data of the file (empty for a directory).
    pub data: Vec<u8>,
    /// The configuration of the entry.
    pub config: Configuration,
}

/// Whether the path (in UTF-8) starts with `__unique__/`.
pub open spec fn is_unique_path(path: Seq<char>) -> bool {
    unique_prefix().is_prefix_of(encode_utf8(path))
}

/// Whether a directory is listed in the pack: all but `__unique__` and the
/// directories inside it.
pub open spec fn listed_dir(path: Seq<char>) -> bool {
    !is_unique_path(path) && encode_utf8(path) != unique_prefix().drop_last()
}

/// The flags of a stored file.
pub open spec fn flags_for(uncooked: bool, unique: bool, compressed: bool) -> u8 {
    ((if uncooked { 1int } else { 0int }) + (if unique { 2int } else { 0int }) + (if compressed {
        4int
    } else {
        0int
    })) as u8
}

/// The file the compiler stores under `name` for the data `processed`.
pub open spec fn stored_for(name: Seq<char>, processed: Seq<u8>, uncooked: bool, compression: CompressionOptions) -> StoredFile {
    let compress = compression.enabled == Some(true);
    StoredFile {
        name: encode_utf8(name),
        flags: flags_for(uncooked, is_unique_path(name), compress),
        data: if compress {
            lz4_frame(processed, compression.level.unwrap())
        } else {
            processed
        },
    }
}

/// Appends `bytes` to `out`.
pub(crate) fn append_bytes(out: &mut Vec<u8>, bytes: &[u8])
    ensures
        final(out)@ == old(out)@ + bytes@,
{
    let mut i: usize = 0;
    while i < bytes.len()
        invariant
            i <= bytes@.len(),
            out@ == old(out)@ + bytes@.subrange(0, i as int),
        decreases bytes.len() - i,
    {
        out.push(bytes[i]);
        i = i + 1;
        assert(out@ =~= old(out)@ + bytes@.subrange(0, i as int));
    }
    assert(bytes@.subrange(0, i as int) =~= bytes@);
}

/// Whether the bytes of `path` start with `b"__unique__/"`.
fn starts_with_unique(path: &str) -> (r: bool)
    ensures
        r == is_unique_path(path@),
{
    let bytes = path.as_bytes();
    assert(UNIQUE_PREFIX@ =~= unique_prefix());
    if bytes.len() < 11 {
        return false;
    }
    let r = crate::digest::bytes_equal(slice_subrange(bytes, 0, 11), &UNIQUE_PREFIX);
    assert(bytes@.subrange(0, 11) =~= encode_utf8(path@).subrange(0, 11));
    r
}

/// Whether the bytes of `path` are exactly `b"__unique__"`.
fn is_unique_dir_name(path: &str) -> (r: bool)
    ensures
        r == (encode_utf8(path@) == unique_prefix().drop_last()),
{
    let bytes = path.as_bytes();
    assert(UNIQUE_PREFIX@ =~= unique_prefix());
    if bytes.len() != 10 {
        return false;
    }
    let r = crate::digest::bytes_equal(bytes, slice_subrange(&UNIQUE_PREFIX, 0, 10));
    assert(UNIQUE_PREFIX@.subrange(0, 10) =~= unique_prefix().drop_last());
    r
}

/// Writes the table of contents entry and the data of one file.
///
/// The data `processed` (already uncooked when `uncooked`) is compressed when the
/// compression settings ask for it, appended to the data section `binary_glob`,
/// and its entry (path, digest, flags, offset, size) appended to `output`.
pub fn finish_asset(
    name: String,
    processed: Vec<u8>,
    uncooked: bool,
    compression: &CompressionOptions,
    binary_glob: &mut Vec<u8>,
    output: &mut Vec<u8>,
) -> (r: CompileResult<()>)
    requires
        compression.enabled is Some,
        compression.enabled == Some(true) ==> compression.level is Some,
    ensures
        r is Ok,
        ({
            let f = stored_for(name@, processed@, uncooked, *compression);
            &&& final(binary_glob)@ == old(binary_glob)@ + f.data
            &&& final(output)@ == old(output)@ + encode_toc_entry(f.name, meta_of(f, old(binary_glob)@.len()))
            &&& blake3_digest(f.data).len() == 32
            &&& compression.enabled == Some(true) ==> lz4_content(f.data) == Some(processed@)
        }),
{
    let unique = starts_with_unique(name.as_str());
    let compress = match compression.enabled {
        Some(b) => b,
        None => false,
    };
    let flags: u8 = (if uncooked { 1u8 } else { 0u8 }) + (if unique { 2u8 } else { 0u8 }) + (if compress { 4u8 } else { 0u8 });
    let file_data = if compress {
        let level = match compression.level {
            Some(l) => l,
            None => 0,
        };
        match compress_asset(processed.as_slice(), level) {
            Some(d) => d,
            None => {
                return Err(CompileError::IoError { step: CompileStep::CompressAsset(name) });
            },
        }
    } else {
        processed
    };
    let ghost f = stored_for(name@, processed@, uncooked, *compression);
    assert(file_data@ == f.data);
    let file_offset = binary_glob.len() as u64;
    let file_hash = hash_bytes(file_data.as_slice());
    append_bytes(binary_glob, file_data.as_slice());
    let ghost out0 = output@;
    append_bytes(output, name.as_str().as_bytes());
    output.push(0u8);
    append_bytes(output, &file_hash);
    output.push(flags);
    let offset_bytes = u64_to_be_bytes(file_offset);
    append_bytes(output, offset_bytes.as_slice());
    let size_bytes = u64_to_be_bytes(file_data.len() as u64);
    append_bytes(output, size_bytes.as_slice());
    proof {
        let m = meta_of(f, old(binary_glob)@.len());
        assert(output@ =~= out0 + encode_toc_entry(f.name, m));
    }
    Ok(())
}

/// Writes the header of the pack: the magic bytes, the version and room for the
/// two digests, which [`write_hashes`] fills in.
pub fn write_header(output: &mut Vec<u8>)
    ensures
        final(output)@ == old(output)@ + header_bytes(Seq::new(32, |i: int| 0u8), Seq::new(32, |i: int| 0u8)),
{
    append_bytes(output, &MAGIC);
    let version = u16_to_be_bytes(FORMAT_VERSION);
    append_bytes(output, &version);
    let zeros = [0u8; 32];
    append_bytes(output, &zeros);
    append_bytes(output, &zeros);
    assert(zeros@ =~= Seq::new(32, |i: int| 0u8));
    assert(final(output)@ =~= old(output)@ + header_bytes(Seq::new(32, |i: int| 0u8), Seq::new(32, |i: int| 0u8)));
}

/// The uncooker that the settings select for a file with extension `ext`: none
/// when uncooking is disabled; the one registered under `uncooker_path` if it
/// uncooks that extension (or the file has none); otherwise the first one
/// registered for the extension.
pub open spec fn spec_select_uncooker(
    infos: Seq<UncookerInfoView>,
    settings: UncookerSettings,
    ext: Option<String>,
) -> Option<int> {
    if settings.enabled != Some(true) {
        None
    } else {
        match settings.uncooker_path {
            Some(p) => match uncooker_by_name(infos, p@) {
                None => None,
                Some(i) => match ext {
                    Some(e) => if infos[i].source_extensions.contains(e@) {
                        Some(i)
                    } else {
                        None
                    },
                    None => Some(i),
                },
            },
            None => match ext {
                Some(e) => uncooker_by_ext(infos, e@),
                None => None,
            },
        }
    }
}

/// The settings of an asset file are complete: every setting that compiling it
/// reads is present, an uncooker named by the settings is registered, and a file
/// that such an uncooker would uncook has an extension.
pub open spec fn asset_settings_complete(a: AssetInput, infos: Seq<UncookerInfoView>) -> bool {
    !a.is_dir ==> {
        &&& a.config.compression matches Some(c) && c.enabled is Some && (c.enabled == Some(true)
            ==> c.level is Some)
        &&& a.config.uncooker matches Some(u) && u.enabled is Some && (u.enabled == Some(true)
            && u.uncooker_path is Some ==> uncooker_by_name(infos, u.uncooker_path->0@) is Some
            && a.extension is Some) && (spec_select_uncooker(infos, u, a.extension) is Some
            ==> u.options is Some && a.extension is Some)
    }
}

/// The path a file is stored under: its own, followed by a dot and the target
/// extension of its uncooker when it was uncooked.
pub open spec fn stored_name(a: AssetInput, infos: Seq<UncookerInfoView>, uncooked: bool) -> Seq<char> {
    if uncooked {
        a.path@ + seq!['.'] + infos[spec_select_uncooker(infos, a.config.uncooker->0, a.extension)->0].target_extension
    } else {
        a.path@
    }
}

/// What compiling the file `a` stores, given the data `processed` that it was
/// turned into and whether it was uncooked.
pub open spec fn stored_asset(a: AssetInput, infos: Seq<UncookerInfoView>, processed: Seq<u8>, uncooked: bool) -> StoredFile {
    stored_for(stored_name(a, infos, uncooked), processed, uncooked, a.config.compression->0)
}

/// The data that compiling the file `a` stores (before compression) and whether
/// it was uncooked, given what the selected uncooker answered (`answer`): the
/// uncooker's output when an uncooker is selected and it gives one, the file's
/// own data otherwise.
pub open spec fn spec_outcome(a: AssetInput, infos: Seq<UncookerInfoView>, answer: Option<Seq<u8>>) -> (Seq<u8>, bool) {
    match (spec_select_uncooker(infos, a.config.uncooker->0, a.extension), answer) {
        (Some(_), Some(o)) => (o, true),
        _ => (a.data@, false),
    }
}

/// Data that is stored compressed decompresses to `processed` again.
pub open spec fn compressed_roundtrip(a: AssetInput, infos: Seq<UncookerInfoView>, processed: Seq<u8>, uncooked: bool) -> bool {
    a.config.compression->0.enabled == Some(true) ==> lz4_content(
        stored_asset(a, infos, processed, uncooked).data,
    ) == Some(processed)
}

/// Uncooking that is not switched on selects no uncooker: when the settings do
/// not say `enabled = Some(true)`, no registered uncooker is chosen, whatever the
/// registry holds and whatever the file's extension.
pub proof fn lemma_uncooking_off_selects_none(infos: Seq<UncookerInfoView>, settings: UncookerSettings, ext: Option<String>)
    requires
        settings.enabled != Some(true),
    ensures
        spec_select_uncooker(infos, settings, ext) is None,
{
}

/// A file whose uncooker settings are not switched on is stored as it is: under
/// its own path, with its own data (compressed when compression is on), and not
/// flagged as uncooked.
pub proof fn lemma_uncooking_off_stores_file_as_is(compiler: AssetPackCompiler, a: AssetInput)
    requires
        a.config.uncooker matches Some(u) && u.enabled != Some(true),
        a.config.compression is Some,
    ensures
        compiler.outcome(a) == (a.data@, false),
        ({
            let f = stored_asset(a, compiler.infos(), compiler.outcome(a).0, compiler.outcome(a).1);
            &&& f.name == encode_utf8(a.path@)
            &&& f.flags % 2 == 0
            &&& a.config.compression->0.enabled != Some(true) ==> f.data == a.data@
        }),
{
    lemma_uncooking_off_selects_none(compiler.infos(), a.config.uncooker->0, a.extension);
}

/// Create an instance of this struct to compile an asset pack.
pub struct AssetPackCompiler {
    asset_uncookers: AssetUncookers,
}

/// The name the text uncooker is registered under.
pub const TEXT_UNCOOKER_NAME: &'static str = "smve_asset_pack::pack_io::compiling::raw_assets::uncookers::text::TextAssetUncooker";

impl AssetPackCompiler {
    /// What is known of the registered uncookers.
    pub closed spec fn infos(&self) -> Seq<UncookerInfoView> {
        self.asset_uncookers.infos()
    }

    /// What the uncooker that compiling the file `a` selects answers to the
    /// request it is handed ([`spec_uncook_request`]); `None` when none is selected.
    pub closed spec fn answer_for(&self, a: AssetInput) -> Option<Seq<u8>> {
        match spec_uncook_request(a, self.infos()) {
            Some(q) => self.asset_uncookers.answer(q.0, q.1, q.2, q.3),
            None => None,
        }
    }

    /// What compiling the file `a` stores (before compression) and whether it
    /// was uncooked.
    pub open spec fn outcome(&self, a: AssetInput) -> (Seq<u8>, bool) {
        spec_outcome(a, self.infos(), self.answer_for(a))
    }

    /// Create a new [`AssetPackCompiler`], with no uncookers.
    pub fn new() -> (r: Self)
        ensures
            r.infos() == Seq::<UncookerInfoView>::empty(),
    {
        AssetPackCompiler { asset_uncookers: AssetUncookers::new() }
    }

    /// Register an instance of an asset uncooker under `registered_name` (the name
    /// configuration files select it by), with the extensions it reports.
    pub fn register_asset_uncooker<U: AssetUncooker + 'static>(&mut self, registered_name: String, uncooker: U)
        ensures
            final(self).infos() == old(self).infos().push(
                UncookerInfoView {
                    registered_name: registered_name@,
                    source_extensions: uncooker.spec_source_extensions(),
                    target_extension: uncooker.spec_target_extension(),
                },
            ),
    {
        self.asset_uncookers.register(registered_name, uncooker);
    }

    /// Registers all built-in uncookers: the text uncooker.
    pub fn register_default_uncookers(&mut self)
        ensures
            final(self).infos().len() == old(self).infos().len() + 1,
            final(self).infos().drop_last() == old(self).infos(),
            final(self).infos().last() == (UncookerInfoView {
                registered_name: TEXT_UNCOOKER_NAME@,
                source_extensions: seq!["txt"@],
                target_extension: "smap_text"@,
            }),
    {
        self.asset_uncookers.register_text_uncooker(String::from_str(TEXT_UNCOOKER_NAME));
    }

    /// Returns the names the uncookers are registered under, each once, in the
    /// order they were first registered.
    pub fn get_uncooker_typenames(&self) -> (r: Vec<String>)
        ensures
            r@.map_values(|s: String| s@) == distinct_names(names_of(self.infos())),
    {
        self.asset_uncookers.get_uncooker_typenames()
    }

    /// The uncooker that `settings` select for a file with extension `extension`.
    pub fn select_uncooker(&self, settings: &UncookerSettings, extension: &Option<String>) -> (r: Option<usize>)
        ensures
            match r {
                Some(i) => Some(i as int) == spec_select_uncooker(self.infos(), *settings, *extension),
                None => spec_select_uncooker(self.infos(), *settings, *extension) is None,
            },
    {
        if settings.enabled != Some(true) {
            return None;
        }
        match &settings.uncooker_path {
            Some(p) => match self.asset_uncookers.get_uncooker_from_type_name(p.as_str()) {
                Some(i) => match extension {
                    Some(e) => if self.asset_uncookers.supports_extension(i, e.as_str()) {
                        Some(i)
                    } else {
                        None
                    },
                    None => Some(i),
                },
                None => None,
            },
            None => match extension {
                Some(e) => self.asset_uncookers.get_uncooker_from_ext(e.as_str()),
                None => None,
            },
        }
    }

    /// Whether the settings of `asset` are complete, as [`Self::compile_assets`]
    /// needs them: an asset without them cannot be compiled.
    pub fn settings_complete(&self, asset: &AssetInput) -> (r: bool)
        ensures
            r == asset_settings_complete(*asset, self.infos()),
    {
        if asset.is_dir {
            return true;
        }
        let compression_ok = match &asset.config.compression {
            Some(c) => c.enabled.is_some() && (c.enabled != Some(true) || c.level.is_some()),
            None => false,
        };
        if !compression_ok {
            return false;
        }
        match &asset.config.uncooker {
            Some(u) => {
                if u.enabled.is_none() {
                    return false;
                }
                if u.enabled == Some(true) {
                    match &u.uncooker_path {
                        Some(p) => {
                            if self.asset_uncookers.get_uncooker_from_type_name(p.as_str()).is_none()
                                || asset.extension.is_none() {
                                return false;
                            }
                        },
                        None => {},
                    }
                }
                match self.select_uncooker(u, &asset.extension) {
                    Some(_) => u.options.is_some() && asset.extension.is_some(),
                    None => true,
                }
            },
            None => false,
        }
    }
}

/// The extension handed to an uncooker: the file's own, or the empty string
/// when it has none.
pub fn extension_or_empty(extension: &Option<String>) -> (r: &str)
    ensures
        r@ == match extension {
            Some(e) => e@,
            None => Seq::<char>::empty(),
        },
{
    match extension {
        Some(e) => e.as_str(),
        None => {
            proof {
                reveal_strlit("");
            }
            ""
        },
    }
}

/// What is known of an uncooking request: the uncooker's position, the data, the
/// extension and the options.
pub open spec fn request_view(q: &UncookRequest) -> (int, Seq<u8>, Seq<char>, Seq<(Seq<char>, OptionValueView)>) {
    (q.index as int, q.data@, q.extension@, q.options@)
}

/// The request that compiling the file `a` hands to an uncooker, if its settings
/// select one: the selected uncooker, the file's data, its extension (empty when
/// it has none) and the options of its settings (an empty table when they give
/// none).
pub open spec fn spec_uncook_request(a: AssetInput, infos: Seq<UncookerInfoView>) -> Option<
    (int, Seq<u8>, Seq<char>, Seq<(Seq<char>, OptionValueView)>),
> {
    match spec_select_uncooker(infos, a.config.uncooker->0, a.extension) {
        None => None,
        Some(i) => Some(
            (
                i,
                a.data@,
                match a.extension {
                    Some(e) => e@,
                    None => Seq::<char>::empty(),
                },
                match a.config.uncooker->0.options {
                    Some(o) => o@,
                    None => Seq::<(Seq<char>, OptionValueView)>::empty(),
                },
            ),
        ),
    }
}

/// Builds the request for the uncooker at `index`: the data `data`, the
/// extension (empty when there is none) and the options (the table `empty`,
/// which holds no entry, when there are none).
pub fn uncook_request<'a>(
    index: usize,
    data: &'a [u8],
    extension: &'a Option<String>,
    options: &'a Option<OptionTable>,
    empty: &'a OptionTable,
) -> (r: UncookRequest<'a>)
    requires
        empty@.len() == 0,
    ensures
        request_view(&r) == (
            index as int,
            data@,
            match extension {
                Some(e) => e@,
                None => Seq::<char>::empty(),
            },
            match options {
                Some(o) => o@,
                None => Seq::<(Seq<char>, OptionValueView)>::empty(),
            },
        ),
{
    let opts = match options {
        Some(o) => o,
        None => empty,
    };
    UncookRequest { index, data, extension: extension_or_empty(extension), options: opts }
}

/// The path, the data and whether it was uncooked that a file at `path` with
/// data `data` is stored with, given the target extension of the uncooker that
/// was selected for it (none when none was) and what that uncooker answered:
/// the uncooker's output under the path with a dot and the target extension
/// added when there is one, the file as it is otherwise.
pub fn apply_uncook(path: String, data: Vec<u8>, target: Option<&String>, answer: Option<Vec<u8>>) -> (r: (
    String,
    Vec<u8>,
    bool,
))
    ensures
        match (target, answer) {
            (Some(t), Some(o)) => r.0@ == path@ + seq!['.'] + t@ && r.1@ == o@ && r.2,
            _ => r.0@ == path@ && r.1@ == data@ && !r.2,
        },
{
    match (target, answer) {
        (Some(t), Some(o)) => {
            let mut name = path;
            name.append(".");
            name.append(t.as_str());
            proof {
                reveal_strlit(".");
            }
            (name, o, true)
        },
        _ => (path, data, false),
    }
}

/// Processes one entry of the asset directory.
///
/// A directory is added to `directories` (unless it is `__unique__` or inside
/// it). A file is uncooked if its settings select an uncooker that accepts its
/// options (its path then gains a dot and the uncooker's target extension),
/// then written by [`finish_asset`].
///
/// The result is always `Ok`: compressing in memory does not fail.
pub fn process_asset(
    asset: AssetInput,
    compiler: &AssetPackCompiler,
    directories: &mut Vec<String>,
    binary_glob: &mut Vec<u8>,
    output: &mut Vec<u8>,
) -> (r: CompileResult<()>)
    requires
        asset_settings_complete(asset, compiler.infos()),
    ensures
        asset.is_dir ==> r is Ok && final(binary_glob)@ == old(binary_glob)@ && final(output)@ == old(
            output,
        )@ && final(directories)@ == if listed_dir(asset.path@) {
            old(directories)@.push(asset.path)
        } else {
            old(directories)@
        },
        r is Ok,
        !asset.is_dir ==> final(directories)@ == old(directories)@ && {
            let (processed, uncooked) = compiler.outcome(asset);
            let f = stored_asset(asset, compiler.infos(), processed, uncooked);
            &&& final(binary_glob)@ == old(binary_glob)@ + f.data
            &&& final(output)@ == old(output)@ + encode_toc_entry(
                f.name,
                meta_of(f, old(binary_glob)@.len()),
            )
            &&& blake3_digest(f.data).len() == 32
            &&& compressed_roundtrip(asset, compiler.infos(), processed, uncooked)
        },
{
    let ghost infos = compiler.infos();
    let ghost a = asset;
    let AssetInput { path, extension, is_dir, data, config } = asset;
    if is_dir {
        if !starts_with_unique(path.as_str()) && !is_unique_dir_name(path.as_str()) {
            directories.push(path);
        }
        return Ok(());
    }
    let Configuration { compression, uncooker, .. } = config;
    let compression = match compression {
        Some(c) => c,
        None => CompressionOptions::default(),
    };
    let settings = match uncooker {
        Some(u) => u,
        None => UncookerSettings::default(),
    };
    let mut name = path;
    let mut processed = data;
    let mut uncooked = false;
    if settings.enabled == Some(true) {
        let selected: Option<usize> = match &settings.uncooker_path {
            Some(p) => match compiler.asset_uncookers.get_uncooker_from_type_name(p.as_str()) {
                Some(i) => match &extension {
                    Some(e) => if compiler.asset_uncookers.supports_extension(i, e.as_str()) {
                        Some(i)
                    } else {
                        None
                    },
                    None => Some(i),
                },
                None => None,
            },
            None => match &extension {
                Some(e) => compiler.asset_uncookers.get_uncooker_from_ext(e.as_str()),
                None => None,
            },
        };
        assert(selected matches Some(i) ==> Some(i as int) == spec_select_uncooker(infos, settings, extension));
        assert(selected is None ==> spec_select_uncooker(infos, settings, extension) is None);
        match selected {
            Some(i) => {
                let empty = OptionTable::new();
                let request = uncook_request(i, processed.as_slice(), &extension, &settings.options, &empty);
                assert(request_view(&request) == spec_uncook_request(a, infos)->0);
                let answer = compiler.asset_uncookers.uncook_with(&request);
                let target = compiler.asset_uncookers.target_extension_of(i);
                let (n, p, u) = apply_uncook(name, processed, Some(target), answer);
                name = n;
                processed = p;
                uncooked = u;
            },
            None => {},
        }
    }
    proof {
        reveal_strlit(".");
    }
    assert(name@ == stored_name(a, infos, uncooked));
    let ghost processed_view = processed@;
    let result = finish_asset(name, processed, uncooked, &compression, binary_glob, output);
    assert((processed_view, uncooked) == compiler.outcome(a));
    result
}

/// The directories that compiling `assets` lists, in order.
pub open spec fn dirs_of(assets: Seq<AssetInput>) -> Seq<Seq<char>>
    decreases assets.len(),
{
    if assets.len() == 0 {
        seq![]
    } else {
        let prev = dirs_of(assets.drop_last());
        let a = assets.last();
        if a.is_dir && listed_dir(a.path@) {
            prev.push(a.path@)
        } else {
            prev
        }
    }
}

/// The files that compiling `assets` stores, in order, when each file `assets[i]`
/// was turned into `outs[i].0` and uncooked when `outs[i].1`.
pub open spec fn files_of(assets: Seq<AssetInput>, infos: Seq<UncookerInfoView>, outs: Seq<(Seq<u8>, bool)>) -> Seq<StoredFile>
    decreases assets.len(),
{
    if assets.len() == 0 {
        seq![]
    } else {
        let prev = files_of(assets.drop_last(), infos, outs);
        let a = assets.last();
        let k = assets.len() - 1;
        if a.is_dir {
            prev
        } else {
            prev.push(stored_asset(a, infos, outs[k].0, outs[k].1))
        }
    }
}

/// What compiling each of `assets` stores (before compression) and whether it
/// was uncooked, in order.
pub open spec fn outcomes_of(assets: Seq<AssetInput>, compiler: AssetPackCompiler) -> Seq<(Seq<u8>, bool)> {
    Seq::new(assets.len(), |i: int| compiler.outcome(assets[i]))
}

/// Every file of `assets` that is stored compressed decompresses to what it was
/// turned into.
pub open spec fn all_compressed_roundtrip(assets: Seq<AssetInput>, infos: Seq<UncookerInfoView>, outs: Seq<(Seq<u8>, bool)>) -> bool {
    forall|i: int|
        0 <= i < assets.len() && !(#[trigger] assets[i]).is_dir ==> compressed_roundtrip(
            assets[i],
            infos,
            outs[i].0,
            outs[i].1,
        )
}

/// The digest of the data of every file is 32 bytes long.
pub open spec fn digests_sized(files: Seq<StoredFile>) -> bool {
    forall|i: int| 0 <= i < files.len() ==> (#[trigger] blake3_digest(files[i].data)).len() == 32
}

/// The UTF-8 bytes of each path.
pub open spec fn utf8_paths(paths: Seq<Seq<char>>) -> Seq<Seq<u8>> {
    paths.map_values(|p: Seq<char>| encode_utf8(p))
}

/// `files_of` reads only the first `assets.len()` outcomes.
proof fn lemma_files_of_prefix(assets: Seq<AssetInput>, infos: Seq<UncookerInfoView>, outs: Seq<(Seq<u8>, bool)>, more: Seq<(Seq<u8>, bool)>)
    requires
        outs.len() >= assets.len(),
        more.len() >= assets.len(),
        forall|i: int| 0 <= i < assets.len() ==> outs[i] == more[i],
    ensures
        files_of(assets, infos, outs) == files_of(assets, infos, more),
    decreases assets.len(),
{
    if assets.len() > 0 {
        lemma_files_of_prefix(assets.drop_last(), infos, outs, more);
    }
}

/// Writes the table of contents of `assets`, each processed by [`process_asset`],
/// followed by its end marker.
///
/// Returns the directories found, the digest of the table of contents and the
/// data section that holds the files.
///
/// The result is always `Ok`: compressing in memory does not fail.
pub fn write_toc(assets: Vec<AssetInput>, compiler: &AssetPackCompiler, output: &mut Vec<u8>) -> (r: CompileResult<(Vec<String>, [u8; 32], Vec<u8>)>)
    requires
        forall|i: int| 0 <= i < assets@.len() ==> asset_settings_complete(#[trigger] assets@[i], compiler.infos()),
    ensures
        r is Ok,
        r matches Ok(t) ==> {
            let outs = outcomes_of(assets@, *compiler);
            let files = files_of(assets@, compiler.infos(), outs);
            &&& final(output)@ == old(output)@ + toc_section(files)
            &&& t.1@ == blake3_digest(toc_section(files))
            &&& t.2@ == glob_of(files)
            &&& t.0@.map_values(|s: String| s@) == dirs_of(assets@)
            &&& digests_sized(files)
            &&& all_compressed_roundtrip(assets@, compiler.infos(), outs)
        },
{
    let ghost orig = assets@;
    let ghost infos = compiler.infos();
    let ghost out0 = output@;
    let mut assets = assets;
    let mut directories: Vec<String> = Vec::new();
    let mut file_glob: Vec<u8> = Vec::new();
    let mut toc: Vec<u8> = Vec::new();
    let ghost mut outs: Seq<(Seq<u8>, bool)> = seq![];
    let mut i: usize = 0;
    let n = assets.len();
    assert(orig.take(0) =~= Seq::<AssetInput>::empty());
    assert(directories@.map_values(|s: String| s@) =~= Seq::<Seq<char>>::empty());
    while i < n
        invariant
            n == orig.len(),
            i <= n,
            assets@ == orig.skip(i as int),
            forall|j: int| 0 <= j < orig.len() ==> asset_settings_complete(#[trigger] orig[j], infos),
            infos == compiler.infos(),
            outs.len() == i,
            forall|j: int| 0 <= j < i ==> #[trigger] outs[j] == compiler.outcome(orig[j]),
            all_compressed_roundtrip(orig.take(i as int), infos, outs),
            toc@ == toc_entries_bytes(files_of(orig.take(i as int), infos, outs), 0),
            digests_sized(files_of(orig.take(i as int), infos, outs)),
            file_glob@ == glob_of(files_of(orig.take(i as int), infos, outs)),
            directories@.map_values(|s: String| s@) == dirs_of(orig.take(i as int)),
        decreases n - i,
    {
        let asset = assets.remove(0);
        let ghost a = asset;
        assert(a == orig[i as int]);
        let ghost glob_before = file_glob@;
        let ghost toc_before = toc@;
        let ghost dirs_before = directories@;
        let ghost files_before = files_of(orig.take(i as int), infos, outs);
        match process_asset(asset, compiler, &mut directories, &mut file_glob, &mut toc) {
            Ok(()) => {},
            Err(e) => {
                return Err(e);
            },
        }
        let ghost next = orig.take(i + 1);
        assert(next.drop_last() =~= orig.take(i as int));
        assert(next.last() == a);
        proof {
            let new_out = compiler.outcome(a);
            let new_outs = outs.push(new_out);
            lemma_files_of_prefix(orig.take(i as int), infos, outs, new_outs);
            assert(files_of(next, infos, new_outs) == if a.is_dir {
                files_before
            } else {
                files_before.push(stored_asset(a, infos, new_out.0, new_out.1))
            });
            if !a.is_dir {
                let f = stored_asset(a, infos, new_out.0, new_out.1);
                assert(files_before.push(f).drop_last() =~= files_before);
                assert(toc@ == toc_entries_bytes(files_before.push(f), 0));
                assert(digests_sized(files_before.push(f)));
                assert(file_glob@ == glob_of(files_before.push(f)));
            }
            assert forall|j: int| 0 <= j < next.len() && !(#[trigger] next[j]).is_dir implies compressed_roundtrip(next[j], infos, new_outs[j].0, new_outs[j].1) by {
                if j < i {
                    assert(next[j] == orig.take(i as int)[j]);
                }
            }
            if a.is_dir {
                if listed_dir(a.path@) {
                    assert(directories@.map_values(|s: String| s@) =~= dirs_before.map_values(|s: String| s@).push(a.path@));
                }
            }
            outs = new_outs;
        }
        i = i + 1;
        assert(assets@ =~= orig.skip(i as int));
    }
    assert(orig.take(n as int) =~= orig);
    assert(outs =~= outcomes_of(orig, *compiler));
    let toc_marker: [u8; 4] = [0xff, 0x07, 0xff, 0x00];
    append_bytes(&mut toc, &toc_marker);
    assert(toc_marker@ =~= toc_end_marker());
    let toc_hash = hash_bytes(toc.as_slice());
    append_bytes(output, toc.as_slice());
    Ok((directories, toc_hash, file_glob))
}

/// Writes the directory list: each directory's path and a NUL byte, then the end
/// marker. Returns the digest of what it wrote.
pub fn write_directory_list(directories: &Vec<String>, output: &mut Vec<u8>) -> (r: [u8; 32])
    ensures
        final(output)@ == old(output)@ + dl_section(utf8_paths(directories@.map_values(|s: String| s@))),
        r@ == blake3_digest(dl_section(utf8_paths(directories@.map_values(|s: String| s@)))),
{
    let ghost paths = utf8_paths(directories@.map_values(|s: String| s@));
    let mut dl: Vec<u8> = Vec::new();
    let mut i: usize = 0;
    assert(paths.take(0) =~= Seq::<Seq<u8>>::empty());
    while i < directories.len()
        invariant
            i <= directories@.len(),
            paths == utf8_paths(directories@.map_values(|s: String| s@)),
            dl@ == dl_entries_bytes(paths.take(i as int)),
        decreases directories.len() - i,
    {
        append_bytes(&mut dl, directories[i].as_str().as_bytes());
        dl.push(0u8);
        proof {
            assert(paths.take(i + 1).drop_last() =~= paths.take(i as int));
            assert(paths[i as int] == encode_utf8(directories@[i as int]@));
            assert(dl@ =~= dl_entries_bytes(paths.take(i + 1)));
        }
        i = i + 1;
    }
    assert(paths.take(i as int) =~= paths);
    let marker: [u8; 4] = [0xff, 0x10, 0xff, 0x00];
    append_bytes(&mut dl, &marker);
    assert(marker@ =~= dl_end_marker());
    let hash = hash_bytes(dl.as_slice());
    append_bytes(output, dl.as_slice());
    hash
}

/// Copies the data section after the pack front.
pub fn write_assets(file_glob: &Vec<u8>, output: &mut Vec<u8>)
    ensures
        final(output)@ == old(output)@ + file_glob@,
{
    append_bytes(output, file_glob.as_slice());
}

/// Fills the digests of the table of contents and of the directory list into the header.
pub fn write_hashes(output: &mut Vec<u8>, toc_hash: &[u8; 32], dl_hash: &[u8; 32])
    requires
        old(output)@.len() >= 70,
    ensures
        final(output)@ == old(output)@.subrange(0, 6) + toc_hash@ + dl_hash@ + old(output)@.subrange(
            70,
            old(output)@.len() as int,
        ),
{
    let mut i: usize = 0;
    while i < 32
        invariant
            i <= 32,
            old(output)@.len() >= 70,
            output@.len() == old(output)@.len(),
            forall|j: int| 0 <= j < output@.len() && !(6 <= j < 6 + i) && !(38 <= j < 38 + i) ==> output@[j] == old(output)@[j],
            forall|j: int| 0 <= j < i ==> output@[6 + j] == toc_hash@[j] && output@[38 + j] == dl_hash@[j],
        decreases 32 - i,
    {
        output.set(6 + i, toc_hash[i]);
        output.set(38 + i, dl_hash[i]);
        i = i + 1;
    }
    assert(output@ =~= old(output)@.subrange(0, 6) + toc_hash@ + dl_hash@ + old(output)@.subrange(70, old(output)@.len() as int));
}

impl AssetPackCompiler {
    /// Compiles the entries of an asset directory (as the directory walk yields
    /// them, in order) into the bytes of an asset pack.
    ///
    /// The pack stores every file as [`process_asset`] makes it and lists every
    /// directory but `__unique__` and those inside it.
    ///
    /// The result is always `Ok`: compressing in memory does not fail.
    pub fn compile_assets(&self, assets: Vec<AssetInput>) -> (r: CompileResult<Vec<u8>>)
        requires
            forall|i: int| 0 <= i < assets@.len() ==> asset_settings_complete(#[trigger] assets@[i], self.infos()),
        ensures
            r is Ok,
            r matches Ok(pack) ==> {
                let outs = outcomes_of(assets@, *self);
                let files = files_of(assets@, self.infos(), outs);
                &&& pack@ == spec_pack(files, utf8_paths(dirs_of(assets@)))
                &&& digests_sized(files)
                &&& all_compressed_roundtrip(assets@, self.infos(), outs)
                &&& blake3_digest(toc_section(files)).len() == 32
                &&& blake3_digest(dl_section(utf8_paths(dirs_of(assets@)))).len() == 32
            },
    {
        let ghost asset_seq = assets@;
        let mut output: Vec<u8> = Vec::new();
        write_header(&mut output);
        let ghost out_h = output@;
        let (directories, toc_hash, file_glob) = match write_toc(assets, self, &mut output) {
            Ok(t) => t,
            Err(e) => {
                return Err(e);
            },
        };
        let ghost out_t = output@;
        let dl_hash = write_directory_list(&directories, &mut output);
        write_assets(&file_glob, &mut output);
        let ghost out_a = output@;
        proof {
            lemma_pow256_values();
            lemma_be_roundtrip(1, 2);
        }
        write_hashes(&mut output, &toc_hash, &dl_hash);
        proof {
            let outs = outcomes_of(asset_seq, *self);
            let files = files_of(asset_seq, self.infos(), outs);
            let dirs = utf8_paths(dirs_of(asset_seq));
            let z = Seq::new(32, |i: int| 0u8);
            assert(out_h =~= header_bytes(z, z));
            assert(out_a =~= header_bytes(z, z) + toc_section(files) + dl_section(dirs) + glob_of(files));
            assert(out_a.subrange(0, 6) =~= MAGIC@ + be_bytes(1, 2));
            assert(out_a.subrange(70, out_a.len() as int) =~= toc_section(files) + dl_section(dirs) + glob_of(files));
            assert(output@ =~= spec_pack(files, dirs));
        }
        Ok(output)
    }
}

} // verus!
