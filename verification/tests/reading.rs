use smve_asset_pack::compiling::{apply_uncook, AssetInput, AssetPackCompiler, TEXT_UNCOOKER_NAME};
use smve_asset_pack::compression::{compress_asset, decompress};
use smve_asset_pack::config::{Configuration, OptionTable, UncookerSettings};
use smve_asset_pack::errors::ReadError;
use smve_asset_pack::reading::{read_dl, read_toc, validate_files, validate_version};
use smve_asset_pack::uncooking::{AssetProcessors, TextAssetProcessor, TextAssetUncooker};

fn one_file_pack() -> Vec<u8> {
    let mut config = Configuration::default();
    config.uncooker.as_mut().unwrap().enabled = Some(false);
    let assets = vec![AssetInput {
        path: "x.bin".to_string(),
        extension: Some("bin".to_string()),
        is_dir: false,
        data: b"data".to_vec(),
        config,
    }];
    AssetPackCompiler::new().compile_assets(assets).unwrap()
}

#[test]
fn versions_up_to_one_are_supported() {
    assert!(matches!(validate_version(b"SMAP\x00\x00"), Ok(0)));
    assert!(matches!(validate_version(b"SMAP\x00\x01"), Ok(1)));
    assert!(matches!(validate_version(b"SMAP\x00\x02"), Err(ReadError::IncompatibleVersion { version: 2 })));
}

#[test]
fn table_of_contents_is_checked_against_its_digest() {
    let pack = one_file_pack();
    let expected = pack[6..38].to_vec();
    let (toc, unique, end) = read_toc(&pack, 70, &expected).unwrap();
    assert_eq!(toc.len(), 1);
    assert_eq!(unique.len(), 0);
    assert_eq!(&pack[end - 4..end], &[0xFF, 0x07, 0xFF, 0x00]);
    let wrong = vec![0u8; 32];
    assert!(matches!(read_toc(&pack, 70, &wrong), Err(ReadError::DamagedTOC)));
}

#[test]
fn compressed_data_decompresses() {
    let data = b"some data to compress, some data to compress".to_vec();
    let frame = compress_asset(&data, 4).unwrap();
    assert_ne!(frame, data);
    assert_eq!(decompress(&frame).unwrap(), data);
}

#[test]
fn uncooker_answers_are_applied() {
    let target = "smap_text".to_string();
    let (name, data, uncooked) = apply_uncook("a.txt".to_string(), b"raw".to_vec(), Some(&target), Some(b"out".to_vec()));
    assert_eq!((name.as_str(), data.as_slice(), uncooked), ("a.txt.smap_text", &b"out"[..], true));
    let (name, data, uncooked) = apply_uncook("a.txt".to_string(), b"raw".to_vec(), Some(&target), None);
    assert_eq!((name.as_str(), data.as_slice(), uncooked), ("a.txt", &b"raw"[..], false));
    let (name, _, uncooked) = apply_uncook("a.txt".to_string(), b"raw".to_vec(), None, Some(b"out".to_vec()));
    assert_eq!((name.as_str(), uncooked), ("a.txt", false));
}

#[test]
fn processors_are_found_by_name_and_extension() {
    let mut processors = AssetProcessors::new();
    processors.register("text".to_string(), TextAssetProcessor);
    assert_eq!(processors.get_processor_from_type_name("text"), Some(0));
    assert_eq!(processors.get_processor_from_type_name("other"), None);
    assert_eq!(processors.get_processor_from_ext("txt"), Some(0));
    assert_eq!(processors.get_processor_from_ext("png"), None);
    assert_eq!(processors.get_processor_typenames(), vec!["text".to_string()]);
    let out = processors.process_with(0, b"abc", "txt", &OptionTable::new()).unwrap();
    assert_ne!(out, b"abc".to_vec());
    assert!(processors.process_with(1, b"abc", "txt", &OptionTable::new()).is_none());
}

#[test]
fn a_damaged_file_has_its_offset_moved_too() {
    let mut pack = one_file_pack();
    let last = pack.len() - 1;
    pack[last] ^= 0xFF;
    let expected = pack[6..38].to_vec();
    let (mut toc, _unique, toc_end) = read_toc(&pack, 70, &expected).unwrap();
    let (_dirs, dl_end) = read_dl(&pack, toc_end).unwrap();
    assert_eq!(toc.get("x.bin").unwrap().offset, 0);
    match validate_files(&pack, &mut toc, dl_end as u64) {
        Err(ReadError::DamagedFile { path }) => assert_eq!(path, "x.bin"),
        _ => panic!("expected DamagedFile"),
    }
    assert_eq!(toc.get("x.bin").unwrap().offset, dl_end as u64);
}

#[test]
fn the_default_uncooker_uncooks_text_files() {
    let mut compiler = AssetPackCompiler::new();
    compiler.register_default_uncookers();
    let mut settings = UncookerSettings::default();
    settings.enabled = Some(true);
    settings.uncooker_path = None;
    assert_eq!(compiler.select_uncooker(&settings, &Some("txt".to_string())), Some(0));
    assert_eq!(compiler.select_uncooker(&settings, &Some("png".to_string())), None);
}

#[test]
fn type_names_are_listed_once_each() {
    let mut compiler = AssetPackCompiler::new();
    compiler.register_asset_uncooker("b".to_string(), TextAssetUncooker);
    compiler.register_asset_uncooker("a".to_string(), TextAssetUncooker);
    compiler.register_asset_uncooker("b".to_string(), TextAssetUncooker);
    assert_eq!(compiler.get_uncooker_typenames(), vec!["b".to_string(), "a".to_string()]);
    let mut processors = AssetProcessors::new();
    processors.register("text".to_string(), TextAssetProcessor);
    processors.register("text".to_string(), TextAssetProcessor);
    assert_eq!(processors.get_processor_typenames(), vec!["text".to_string()]);
}

#[test]
fn the_text_uncooker_is_registered_under_its_type_name() {
    let mut compiler = AssetPackCompiler::new();
    compiler.register_default_uncookers();
    assert_eq!(
        compiler.get_uncooker_typenames(),
        vec!["smve_asset_pack::pack_io::compiling::raw_assets::uncookers::text::TextAssetUncooker".to_string()]
    );
    assert_eq!(TEXT_UNCOOKER_NAME, "smve_asset_pack::pack_io::compiling::raw_assets::uncookers::text::TextAssetUncooker");
    let mut settings = UncookerSettings::default();
    settings.enabled = Some(true);
    settings.uncooker_path = Some(TEXT_UNCOOKER_NAME.to_string());
    assert_eq!(compiler.select_uncooker(&settings, &Some("txt".to_string())), Some(0));
}
