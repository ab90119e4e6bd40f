use smve_asset_pack::compiling::{AssetInput, AssetPackCompiler, CompileStep};
use smve_asset_pack::config::{CompressionOptions, Configuration};
use smve_asset_pack::errors::{ReadError, ReadStep};
use smve_asset_pack::flags::{is_compressed, is_raw, is_unique};
use smve_asset_pack::obfuscation::toggle_obfuscation;
use smve_asset_pack::pack_front::read_pack_front;
use smve_asset_pack::pack_reader::{AssetPackReader, DirectoryInfo};

fn file(path: &str, data: &[u8], config: Configuration) -> AssetInput {
    let extension = path.rsplit_once('.').map(|(_, e)| e.to_string());
    AssetInput {
        path: path.to_string(),
        extension,
        is_dir: false,
        data: data.to_vec(),
        config,
    }
}

fn dir(path: &str) -> AssetInput {
    AssetInput {
        path: path.to_string(),
        extension: None,
        is_dir: true,
        data: vec![],
        config: Configuration::empty(),
    }
}

fn plain() -> Configuration {
    let mut c = Configuration::default();
    c.uncooker.as_mut().unwrap().enabled = Some(false);
    c
}

fn compressed() -> Configuration {
    let mut c = plain();
    c.compression = Some(CompressionOptions { enabled: Some(true), level: Some(4) });
    c
}

fn compile(assets: Vec<AssetInput>) -> Vec<u8> {
    let mut compiler = AssetPackCompiler::new();
    compiler.register_default_uncookers();
    match compiler.compile_assets(assets) {
        Ok(pack) => pack,
        Err(_) => panic!("compiling failed"),
    }
}

fn read(reader: &mut AssetPackReader, path: &str) -> Vec<u8> {
    match reader.get_file_reader(path) {
        Ok(mut fr) => fr.read_to_end(),
        Err(e) => panic!("reading {path} failed: {e:?}"),
    }
}

#[test]
fn compiled_files_read_back() {
    let pack = compile(vec![
        file("a.bin", b"first file", plain()),
        dir("sub"),
        file("sub/b.bin", b"second", plain()),
        file("sub/c.bin", b"", plain()),
    ]);
    assert_eq!(&pack[0..4], b"SMAP");
    assert_eq!(&pack[4..6], &[0, 1]);
    let mut reader = AssetPackReader::new(pack).unwrap();
    assert_eq!(reader.get_version(), 1);
    assert_eq!(read(&mut reader, "a.bin"), b"first file");
    assert_eq!(read(&mut reader, "sub/b.bin"), b"second");
    assert_eq!(read(&mut reader, "sub/c.bin"), b"");
    assert!(reader.has_file("a.bin").unwrap());
    assert!(!reader.has_file("missing.bin").unwrap());
    assert!(reader.has_directory("sub").unwrap());
    assert!(!reader.has_directory("a.bin").unwrap());
    match reader.get_file_reader("missing.bin") {
        Err(ReadError::FileNotFound(p)) => assert_eq!(p, "missing.bin"),
        _ => panic!("expected FileNotFound"),
    }
}

#[test]
fn compressed_files_read_back() {
    let data = b"compress me compress me compress me compress me".to_vec();
    let pack = compile(vec![file("big.bin", &data, compressed())]);
    let mut reader = AssetPackReader::new(pack).unwrap();
    let flags = reader.get_flags("big.bin").unwrap();
    assert!(is_compressed(flags));
    assert!(!is_raw(flags));
    assert_eq!(read(&mut reader, "big.bin"), data);
}

#[test]
fn text_files_are_uncooked() {
    let pack = compile(vec![file("hello.txt", b"Hello World!", Configuration::default())]);
    let mut reader = AssetPackReader::new(pack).unwrap();
    assert!(!reader.has_file("hello.txt").unwrap());
    let flags = reader.get_flags("hello.txt.smap_text").unwrap();
    assert!(is_raw(flags));
    let stored = read(&mut reader, "hello.txt.smap_text");
    assert_eq!(toggle_obfuscation(&stored), b"Hello World!");
}

#[test]
fn unique_files_are_kept_apart() {
    let pack = compile(vec![
        dir("__unique__"),
        file("__unique__/only.bin", b"unique", plain()),
        file("normal.bin", b"normal", plain()),
    ]);
    let front = read_pack_front(&pack).unwrap();
    assert_eq!(front.directory_list.len(), 0);
    let mut reader = AssetPackReader::new(pack).unwrap();
    assert!(!reader.has_file("__unique__/only.bin").unwrap());
    assert!(reader.get_unique_file_reader("__unique__/only.bin").is_err());
    let mut fr = reader.get_unique_file_reader("only.bin").unwrap();
    assert_eq!(fr.read_to_end(), b"unique");
    assert!(is_unique(0x02));
    match reader.get_unique_file_reader("none.bin") {
        Err(ReadError::UniqueFileNotFound(p)) => assert_eq!(p, "none.bin"),
        _ => panic!("expected UniqueFileNotFound"),
    }
}

#[test]
fn directories_know_their_first_file() {
    let pack = compile(vec![
        file("top.bin", b"1", plain()),
        dir("d"),
        file("d/x.bin", b"2", plain()),
        file("d/y.bin", b"3", plain()),
    ]);
    let front = read_pack_front(&pack).unwrap();
    assert_eq!(front.directory_list.len(), 1);
    assert_eq!(front.directory_list[0].path, "d");
    assert_eq!(front.directory_list[0].first_file, 1);
    let mut reader = AssetPackReader::new(pack).unwrap();
    assert_eq!(reader.get_directory_info("d/").unwrap(), DirectoryInfo::Directory(1));
    assert_eq!(reader.get_directory_info("e/").unwrap(), DirectoryInfo::NotADirectory);
    let listed = reader.iter_directory("d").unwrap();
    let names: Vec<&str> = listed.iter().map(|(n, _)| n.as_str()).collect();
    assert_eq!(names, vec!["d/x.bin", "d/y.bin"]);
}

#[test]
fn damaged_file_is_detected() {
    let mut pack = compile(vec![file("a.bin", b"payload", plain())]);
    let last = pack.len() - 1;
    pack[last] ^= 0xff;
    match read_pack_front(&pack) {
        Err(ReadError::DamagedFile { path }) => assert_eq!(path, "a.bin"),
        _ => panic!("expected DamagedFile"),
    }
}

#[test]
fn damaged_toc_is_detected() {
    let mut pack = compile(vec![file("a.bin", b"payload", plain())]);
    // The first byte of the stored path of the only file.
    pack[70] = b'b';
    match read_pack_front(&pack) {
        Err(ReadError::DamagedTOC) => {}
        _ => panic!("expected DamagedTOC"),
    }
}

#[test]
fn damaged_directory_list_is_detected() {
    let mut pack = compile(vec![dir("d"), file("d/a.bin", b"payload", plain())]);
    let toc_len = "d/a.bin".len() + 1 + 49 + 4;
    pack[70 + toc_len] = b'e';
    match read_pack_front(&pack) {
        Err(ReadError::DamagedDirectoryList) => {}
        _ => panic!("expected DamagedDirectoryList"),
    }
}

#[test]
fn bad_magic_and_version_are_refused() {
    let pack = compile(vec![file("a.bin", b"x", plain())]);
    let mut bad_magic = pack.clone();
    bad_magic[0] = b'X';
    assert!(matches!(AssetPackReader::new(bad_magic), Err(ReadError::InvalidPackFile)));
    let mut bad_version = pack.clone();
    bad_version[5] = 2;
    assert!(matches!(
        AssetPackReader::new(bad_version),
        Err(ReadError::IncompatibleVersion { version: 2 })
    ));
    assert!(matches!(
        read_pack_front(&pack[0..10]),
        Err(ReadError::IoError { step: ReadStep::ReadPackFront, .. })
    ));
}

#[test]
fn compile_step_messages() {
    assert_eq!(CompileStep::WriteHeader.message(), "writing pack header");
    assert_eq!(
        CompileStep::ReadAssetFile("a/b.txt".to_string()).message(),
        "reading asset file at a/b.txt"
    );
}

#[test]
fn header_holds_the_blake3_digests_of_the_sections() {
    let pack = compile(vec![file("x.bin", b"digest me", plain()), dir("d")]);
    // One entry: "x.bin", a zero byte, 32 digest bytes, flags, offset and size.
    let toc_entry_len = 5 + 1 + 32 + 1 + 8 + 8;
    let toc_start = 70;
    let toc_end = toc_start + toc_entry_len + 4;
    assert_eq!(&pack[toc_end - 4..toc_end], &[0xFF, 0x07, 0xFF, 0x00]);
    let dl_end = toc_end + 2 + 4;
    assert_eq!(&pack[toc_end..dl_end], &[b'd', 0, 0xFF, 0x10, 0xFF, 0x00]);
    assert_eq!(&pack[6..38], blake3::hash(&pack[toc_start..toc_end]).as_bytes());
    assert_eq!(&pack[38..70], blake3::hash(&pack[toc_end..dl_end]).as_bytes());
    assert_eq!(&pack[toc_start + 6..toc_start + 38], blake3::hash(b"digest me").as_bytes());
    assert_eq!(&pack[dl_end..], b"digest me");
}
