//! Errors raised while reading asset packs, and the steps at which they occur.
use crate::format::{FileMeta, MetaView};
use vstd::prelude::*;

verus! {

/// The kind of an input/output error.
#[derive(Clone, Copy, Debug, PartialEq, Eq)]
pub enum IoErrorKind {
    /// The data ended before all the bytes that were asked for could be read.
    UnexpectedEof,
    /// A seek went before the start of a file.
    InvalidInput,
    /// Any other failure of the operation (such as a decoder that cannot be set up).
    Other,
}

/// A representation of the read steps.
#[derive(Debug)]
pub enum ReadStep {
    /// Opening an asset pack. Stores the path of the asset pack.
    OpenPack(String),
    /// Reading the pack front of the asset pack.
    ReadPackFront,
    /// Validating the asset pack header.
    ValidateHeader,
    /// Reading TOC entry for an asset. Stores the path to the asset file.
    ReadTOC(String),
    /// Reading DL entry for an asset. Stores the path to the directory.
    ReadDirectoryList(String),
    /// Validating file hashes.
    ValidateFiles,
    /// Validate the hash of one file. Stores the path to the file.
    ValidateFile(String),
    /// Creating a direct file reader for an asset. Stores the metadata of the asset.
    CreateDirectFileReader(FileMeta),
    /// Decompressing an asset file. Stores the metadata of the asset.
    DecompressFile(FileMeta),
    /// Reading packs.toml. Stores the root directory where the packs.toml file is located.
    ReadPacksToml(String),
    /// Opening an asset pack while loading an asset pack group. Stores the path to the pack file
    /// being opened.
    LoadGroupOpenPack(String),
    /// Writing to packs.toml while loading an asset pack group. Stores the root directory where
    /// packs.toml is located.
    LoadGroupWritePacksToml(String),
}

/// The mathematical content of a [`ReadStep`].
pub enum ReadStepView {
    OpenPack(Seq<char>),
    ReadPackFront,
    ValidateHeader,
    ReadTOC(Seq<char>),
    ReadDirectoryList(Seq<char>),
    ValidateFiles,
    ValidateFile(Seq<char>),
    CreateDirectFileReader(MetaView),
    DecompressFile(MetaView),
    ReadPacksToml(Seq<char>),
    LoadGroupOpenPack(Seq<char>),
    LoadGroupWritePacksToml(Seq<char>),
}

impl View for ReadStep {
    type V = ReadStepView;

    open spec fn view(&self) -> ReadStepView {
        match self {
            ReadStep::OpenPack(p) => ReadStepView::OpenPack(p@),
            ReadStep::ReadPackFront => ReadStepView::ReadPackFront,
            ReadStep::ValidateHeader => ReadStepView::ValidateHeader,
            ReadStep::ReadTOC(p) => ReadStepView::ReadTOC(p@),
            ReadStep::ReadDirectoryList(p) => ReadStepView::ReadDirectoryList(p@),
            ReadStep::ValidateFiles => ReadStepView::ValidateFiles,
            ReadStep::ValidateFile(p) => ReadStepView::ValidateFile(p@),
            ReadStep::CreateDirectFileReader(m) => ReadStepView::CreateDirectFileReader(m@),
            ReadStep::DecompressFile(m) => ReadStepView::DecompressFile(m@),
            ReadStep::ReadPacksToml(p) => ReadStepView::ReadPacksToml(p@),
            ReadStep::LoadGroupOpenPack(p) => ReadStepView::LoadGroupOpenPack(p@),
            ReadStep::LoadGroupWritePacksToml(p) => ReadStepView::LoadGroupWritePacksToml(p@),
        }
    }
}

/// Error raised from reading the asset pack.
#[derive(Debug)]
#[allow(inconsistent_fields)]
pub enum ReadError {
    /// If a pack group root directory is not a directory.
    NotADirectory {
        /// The path to the passed in "root directory".
        path: String,
    },
    /// Input/output error from reading the pack.
    IoError {
        /// What went wrong.
        kind: IoErrorKind,
        /// The read step at which the error occurred.
        step: ReadStep,
    },
    /// The pack file does not start with the magic byte sequence, or its structure is broken.
    InvalidPackFile,
    /// The pack file is encoded in a version that this version of the library does not support.
    IncompatibleVersion {
        /// The version specified in the pack file.
        version: u16,
    },
    /// A path stored in the pack is not valid UTF-8.
    Utf8Error {
        /// The exact bytes stored in the file that failed to convert to UTF-8
        path: Vec<u8>,
    },
    /// The TOC has been modified or damaged.
    DamagedTOC,
    /// The Directory List has been modified or damaged.
    DamagedDirectoryList,
    /// The file data has been modified or damaged.
    DamagedFile {
        /// The path of the file that has been damaged.
        path: String,
    },
    /// The requested file does not exist in the asset pack.
    FileNotFound(String),
    /// The requested pack-unique file does not exist in the asset pack.
    UniqueFileNotFound(String),
    /// The requested directory does not exist in the asset pack.
    DirectoryNotFound(String),
    /// A file was requested from a pack group whose changes have not been loaded.
    LoadNotCalled,
}

/// The mathematical content of a [`ReadError`].
pub enum ReadErrorView {
    NotADirectory(Seq<char>),
    IoError(IoErrorKind, ReadStepView),
    InvalidPackFile,
    IncompatibleVersion(u16),
    Utf8Error(Seq<u8>),
    DamagedTOC,
    DamagedDirectoryList,
    DamagedFile(Seq<char>),
    FileNotFound(Seq<char>),
    UniqueFileNotFound(Seq<char>),
    DirectoryNotFound(Seq<char>),
    LoadNotCalled,
}

impl View for ReadError {
    type V = ReadErrorView;

    open spec fn view(&self) -> ReadErrorView {
        match self {
            ReadError::NotADirectory { path } => ReadErrorView::NotADirectory(path@),
            ReadError::IoError { kind, step } => ReadErrorView::IoError(*kind, step@),
            ReadError::InvalidPackFile => ReadErrorView::InvalidPackFile,
            ReadError::IncompatibleVersion { version } => ReadErrorView::IncompatibleVersion(*version),
            ReadError::Utf8Error { path } => ReadErrorView::Utf8Error(path@),
            ReadError::DamagedTOC => ReadErrorView::DamagedTOC,
            ReadError::DamagedDirectoryList => ReadErrorView::DamagedDirectoryList,
            ReadError::DamagedFile { path } => ReadErrorView::DamagedFile(path@),
            ReadError::FileNotFound(p) => ReadErrorView::FileNotFound(p@),
            ReadError::UniqueFileNotFound(p) => ReadErrorView::UniqueFileNotFound(p@),
            ReadError::DirectoryNotFound(p) => ReadErrorView::DirectoryNotFound(p@),
            ReadError::LoadNotCalled => ReadErrorView::LoadNotCalled,
        }
    }
}

/// Shorthand type for [`Result<T, ReadError>`]
pub type ReadResult<T> = Result<T, ReadError>;

} // verus!
