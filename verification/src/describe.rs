//! Descriptions of the steps of compiling, reading and uncooking, as text for
//! error messages.
use crate::compiling::CompileStep;
use crate::errors::ReadStep;
use crate::format::FileMeta;
use vstd::prelude::*;

verus! {

/// The decimal digit `d`.
pub open spec fn digit_char(d: nat) -> char {
    if d == 0 { '0' }
    else if d == 1 { '1' }
    else if d == 2 { '2' }
    else if d == 3 { '3' }
    else if d == 4 { '4' }
    else if d == 5 { '5' }
    else if d == 6 { '6' }
    else if d == 7 { '7' }
    else if d == 8 { '8' }
    else { '9' }
}

/// The decimal digits of `n`, without leading zeros (`0` for zero).
pub open spec fn decimal(n: nat) -> Seq<char>
    decreases n,
{
    if n < 10 {
        seq![digit_char(n)]
    } else {
        decimal(n / 10).push(digit_char(n % 10))
    }
}

/// The text of the decimal digit `d`.
fn digit_str(d: u64) -> (r: &'static str)
    requires
        d < 10,
    ensures
        r@ == seq![digit_char(d as nat)],
{
    proof {
        reveal_strlit("0");
        reveal_strlit("1");
        reveal_strlit("2");
        reveal_strlit("3");
        reveal_strlit("4");
        reveal_strlit("5");
        reveal_strlit("6");
        reveal_strlit("7");
        reveal_strlit("8");
        reveal_strlit("9");
    }
    if d == 0 {
        "0"
    } else if d == 1 {
        "1"
    } else if d == 2 {
        "2"
    } else if d == 3 {
        "3"
    } else if d == 4 {
        "4"
    } else if d == 5 {
        "5"
    } else if d == 6 {
        "6"
    } else if d == 7 {
        "7"
    } else if d == 8 {
        "8"
    } else {
        "9"
    }
}

/// Appends the decimal digits of `n` to `out`.
pub fn push_decimal(out: &mut String, n: u64)
    ensures
        final(out)@ == old(out)@ + decimal(n as nat),
    decreases n,
{
    if n < 10 {
        out.append(digit_str(n));
    } else {
        push_decimal(out, n / 10);
        out.append(digit_str(n % 10));
    }
}

/// The lines that list the bytes of a hash, each indented by eight spaces and
/// followed by a comma.
pub open spec fn hash_lines(h: Seq<u8>) -> Seq<char>
    decreases h.len(),
{
    if h.len() == 0 {
        seq![]
    } else {
        hash_lines(h.drop_last()) + "        "@ + decimal(h.last() as nat) + ",\n"@
    }
}

/// The metadata of a file, written out field by field, one per line, as Rust's
/// alternate debug formatting writes it.
pub open spec fn meta_text(m: FileMeta) -> Seq<char> {
    "FileMeta {\n    hash: [\n"@ + hash_lines(m.hash@) + "    ],\n    flags: "@ + decimal(m.flags as nat)
        + ",\n    offset: "@ + decimal(m.offset as nat) + ",\n    size: "@ + decimal(m.size as nat)
        + ",\n}"@
}

/// Appends the metadata of a file, written out field by field.
pub fn push_meta(out: &mut String, m: &FileMeta)
    ensures
        final(out)@ == old(out)@ + meta_text(*m),
{
    let ghost start = out@;
    out.append("FileMeta {\n    hash: [\n");
    let mut i: usize = 0;
    while i < 32
        invariant
            i <= 32,
            m.hash@.len() == 32,
            out@ == start + "FileMeta {\n    hash: [\n"@ + hash_lines(m.hash@.take(i as int)),
        decreases 32 - i,
    {
        out.append("        ");
        push_decimal(out, m.hash[i] as u64);
        out.append(",\n");
        proof {
            assert(m.hash@.take(i + 1).drop_last() =~= m.hash@.take(i as int));
            assert(m.hash@.take(i + 1).last() == m.hash@[i as int]);
        }
        i = i + 1;
    }
    proof {
        assert(m.hash@.take(32) =~= m.hash@);
    }
    out.append("    ],\n    flags: ");
    push_decimal(out, m.flags as u64);
    out.append(",\n    offset: ");
    push_decimal(out, m.offset);
    out.append(",\n    size: ");
    push_decimal(out, m.size);
    out.append(",\n}");
}

/// What a compile step says of itself.
pub open spec fn compile_step_text(step: CompileStep) -> Seq<char> {
    match step {
        CompileStep::ValidateAssetDir(p) => "validating asset directory at "@ + p@,
        CompileStep::WriteHeader => "writing pack header"@,
        CompileStep::ReadAssetFile(p) => "reading asset file at "@ + p@,
        CompileStep::CompressAsset(p) => "compressing asset file at "@ + p@,
        CompileStep::PreliminaryWrite(p) => "writing TOC entry and temporary file data for asset file at "@ + p@,
        CompileStep::WriteTOC => "writing the table of contents"@,
        CompileStep::WriteDirectoryList => "writing the directory list"@,
        CompileStep::CopyData => "copying temporary asset blob into pack file"@,
        CompileStep::WriteHashes => "writing hashes"@,
        CompileStep::OpenOutputFile(p) => "opening output file at "@ + p@,
    }
}

/// Text followed by a path.
fn with_path(text: &str, path: &String) -> (r: String)
    ensures
        r@ == text@ + path@,
{
    let mut s = String::from_str(text);
    s.append(path.as_str());
    s
}

impl CompileStep {
    /// What the step says of itself, as in error messages.
    pub fn message(&self) -> (r: String)
        ensures
            r@ == compile_step_text(*self),
    {
        match self {
            CompileStep::ValidateAssetDir(p) => with_path("validating asset directory at ", p),
            CompileStep::WriteHeader => String::from_str("writing pack header"),
            CompileStep::ReadAssetFile(p) => with_path("reading asset file at ", p),
            CompileStep::CompressAsset(p) => with_path("compressing asset file at ", p),
            CompileStep::PreliminaryWrite(p) => with_path(
                "writing TOC entry and temporary file data for asset file at ",
                p,
            ),
            CompileStep::WriteTOC => String::from_str("writing the table of contents"),
            CompileStep::WriteDirectoryList => String::from_str("writing the directory list"),
            CompileStep::CopyData => String::from_str("copying temporary asset blob into pack file"),
            CompileStep::WriteHashes => String::from_str("writing hashes"),
            CompileStep::OpenOutputFile(p) => with_path("opening output file at ", p),
        }
    }
}

/// What a read step says of itself.
pub open spec fn read_step_text(step: ReadStep) -> Seq<char> {
    match step {
        ReadStep::OpenPack(p) => "opening asset pack at "@ + p@,
        ReadStep::ReadPackFront => "reading the pack front of the asset pack"@,
        ReadStep::ValidateHeader => "validating asset pack header"@,
        ReadStep::ReadTOC(p) => "reading table of contents entry for asset at "@ + p@,
        ReadStep::ReadDirectoryList(p) => "reading directory list entry for directory at "@ + p@,
        ReadStep::ValidateFiles => "validating file hashes"@,
        ReadStep::ValidateFile(p) => "validating file hash for asset file at "@ + p@,
        ReadStep::CreateDirectFileReader(m) => "creating a direct file reader for asset file with meta "@ + meta_text(m),
        ReadStep::DecompressFile(m) => "decompressing asset file with meta "@ + meta_text(m),
        ReadStep::ReadPacksToml(p) => "reading the packs.toml file at root directory "@ + p@,
        ReadStep::LoadGroupOpenPack(p) => "opening asset pack at "@ + p@ + " when loading pack group"@,
        ReadStep::LoadGroupWritePacksToml(p) => "writing packs.toml at root directory "@ + p@
            + " when loading pack group"@,
    }
}

/// Text followed by the metadata of a file.
fn with_meta(text: &str, m: &FileMeta) -> (r: String)
    ensures
        r@ == text@ + meta_text(*m),
{
    let mut s = String::from_str(text);
    push_meta(&mut s, m);
    s
}

impl ReadStep {
    /// What the step says of itself, as in error messages.
    pub fn message(&self) -> (r: String)
        ensures
            r@ == read_step_text(*self),
    {
        match self {
            ReadStep::OpenPack(p) => with_path("opening asset pack at ", p),
            ReadStep::ReadPackFront => String::from_str("reading the pack front of the asset pack"),
            ReadStep::ValidateHeader => String::from_str("validating asset pack header"),
            ReadStep::ReadTOC(p) => with_path("reading table of contents entry for asset at ", p),
            ReadStep::ReadDirectoryList(p) => with_path("reading directory list entry for directory at ", p),
            ReadStep::ValidateFiles => String::from_str("validating file hashes"),
            ReadStep::ValidateFile(p) => with_path("validating file hash for asset file at ", p),
            ReadStep::CreateDirectFileReader(m) => with_meta("creating a direct file reader for asset file with meta ", m),
            ReadStep::DecompressFile(m) => with_meta("decompressing asset file with meta ", m),
            ReadStep::ReadPacksToml(p) => with_path("reading the packs.toml file at root directory ", p),
            ReadStep::LoadGroupOpenPack(p) => {
                let mut s = with_path("opening asset pack at ", p);
                s.append(" when loading pack group");
                s
            },
            ReadStep::LoadGroupWritePacksToml(p) => {
                let mut s = with_path("writing packs.toml at root directory ", p);
                s.append(" when loading pack group");
                s
            },
        }
    }
}

/// Where an error of a user-defined uncooker can be met.
#[derive(Debug)]
pub enum UncookerStep {
    /// Initializing the runtime of the uncooker.
    Initialize,
    /// Getting the globals the uncooker defines.
    GetGlobals,
    /// Running the uncook function.
    RunUncook,
}

/// What an uncooker step says of itself.
pub open spec fn uncooker_step_text(step: UncookerStep) -> Seq<char> {
    match step {
        UncookerStep::Initialize => "initializing lua runtime"@,
        UncookerStep::GetGlobals => "getting globals"@,
        UncookerStep::RunUncook => "running uncook function"@,
    }
}

impl UncookerStep {
    /// What the step says of itself, as in error messages.
    pub fn message(&self) -> (r: String)
        ensures
            r@ == uncooker_step_text(*self),
    {
        match self {
            UncookerStep::Initialize => String::from_str("initializing lua runtime"),
            UncookerStep::GetGlobals => String::from_str("getting globals"),
            UncookerStep::RunUncook => String::from_str("running uncook function"),
        }
    }
}

} // verus!
