use smve_asset_pack::compiling::{AssetInput, AssetPackCompiler};
use smve_asset_pack::config::Configuration;
use smve_asset_pack::errors::ReadError;
use smve_asset_pack::pack_group::AssetPackGroupReader;
use smve_asset_pack::pack_reader::AssetPackReader;

const ROOT: &str = "asset_group_out";

fn plain() -> Configuration {
    let mut c = Configuration::default();
    c.uncooker.as_mut().unwrap().enabled = Some(false);
    c
}

fn pack(files: &[(&str, &str)]) -> Vec<u8> {
    let assets = files
        .iter()
        .map(|(p, d)| AssetInput {
            path: p.to_string(),
            extension: p.rsplit_once('.').map(|(_, e)| e.to_string()),
            is_dir: false,
            data: d.as_bytes().to_vec(),
            config: plain(),
        })
        .collect();
    match AssetPackCompiler::new().compile_assets(assets) {
        Ok(p) => p,
        Err(_) => panic!("compiling failed"),
    }
}

fn disk() -> Vec<(String, Vec<u8>)> {
    vec![
        (
            format!("{ROOT}/pack1.smap"),
            pack(&[("override.txt", "Override1"), ("builtin.txt", "Overwritten\n")]),
        ),
        (
            format!("{ROOT}/pack2.smap"),
            pack(&[("override.txt", "Override2"), ("singular.txt", "Singular")]),
        ),
        (format!("{ROOT}/notes.md"), b"not a pack".to_vec()),
    ]
}

fn load(group: &mut AssetPackGroupReader) -> Result<(), ReadError> {
    let files = disk();
    group.begin_load();
    for (path, _) in &files {
        group.discover_pack(path, false);
    }
    if group.retain_available() {
        for (index, path) in group.packs_to_open() {
            let bytes = files
                .iter()
                .find(|(p, _)| *p == path)
                .map(|(_, b)| b.clone())
                .expect("pack on disk");
            group.set_pack_reader(index, AssetPackReader::new(bytes)?);
        }
        group.build_index()?;
    }
    Ok(())
}

fn read(group: &AssetPackGroupReader, path: &str) -> String {
    match group.get_file_reader(path) {
        Ok(Some(mut reader)) => String::from_utf8(reader.read_to_end()).unwrap(),
        Ok(None) => panic!("{path} not found"),
        Err(e) => panic!("{path}: {e:?}"),
    }
}

#[test]
fn test_groups() {
    let mut reader = AssetPackGroupReader::new(ROOT.to_string(), vec![]);

    reader.register_built_in_pack(
        "builtin",
        AssetPackReader::new(pack(&[("builtin.txt", "BuiltIn\n")])).unwrap(),
    );

    // Test pack1 overriding pack2
    load(&mut reader).unwrap();
    reader.set_enabled_packs(&["pack1.smap", "pack2.smap"]);
    load(&mut reader).unwrap();
    assert_eq!(read(&reader, "override.txt"), "Override1");

    // Test pack1 overriding builtin
    assert_eq!(read(&reader, "builtin.txt"), "Overwritten\n");

    // Test pack2 overriding pack1
    reader.set_enabled_packs(&["pack2.smap", "pack1.smap"]);
    load(&mut reader).unwrap();
    assert_eq!(read(&reader, "override.txt"), "Override2");

    // Test singular file that does not get overwritten
    assert_eq!(read(&reader, "singular.txt"), "Singular");

    // Test builtin overriding pack1
    reader.set_enabled_packs(&["/__built_in/builtin", "pack1.smap", "pack2.smap"]);
    load(&mut reader).unwrap();
    assert_eq!(read(&reader, "builtin.txt"), "BuiltIn\n");

    // Test override overriding everything
    reader.add_override_pack(
        AssetPackReader::new(pack(&[("singular.txt", "Overridden!\n")])).unwrap(),
        "override1",
    );
    load(&mut reader).unwrap();
    assert_eq!(read(&reader, "singular.txt"), "Overridden!\n");

    // Test override second
    reader.add_override_pack(
        AssetPackReader::new(pack(&[("singular.txt", "Overridden AGAIN\n")])).unwrap(),
        "override2",
    );
    load(&mut reader).unwrap();
    assert_eq!(read(&reader, "singular.txt"), "Overridden AGAIN\n");
}

#[test]
fn files_cannot_be_read_before_loading() {
    let mut reader = AssetPackGroupReader::new(ROOT.to_string(), vec![]);
    assert!(matches!(reader.get_file_reader("x"), Err(ReadError::LoadNotCalled)));
    load(&mut reader).unwrap();
    assert!(matches!(reader.get_file_reader("x"), Ok(None)));
    reader.set_pack_extension("other".to_string());
    assert!(reader.get_file_reader("x").is_ok());
    reader.add_override_pack(AssetPackReader::new(pack(&[("x", "1")])).unwrap(), "o");
    assert!(matches!(reader.get_file_reader("x"), Err(ReadError::LoadNotCalled)));
}

#[test]
fn only_pack_files_become_available() {
    let mut reader = AssetPackGroupReader::new(ROOT.to_string(), vec![]);
    load(&mut reader).unwrap();
    let mut names: Vec<&str> = reader.get_available_packs().iter().map(|(p, _)| p.as_str()).collect();
    names.sort();
    assert_eq!(names, vec!["pack1.smap", "pack2.smap"]);
    assert!(reader.get_available_packs().iter().all(|(_, d)| !d.enabled && !d.is_built_in));
}

#[test]
fn packs_toml_list_is_kept_when_available() {
    let mut reader = AssetPackGroupReader::new(
        ROOT.to_string(),
        vec![("pack2.smap".to_string(), false), ("gone.smap".to_string(), false)],
    );
    load(&mut reader).unwrap();
    let enabled: Vec<&str> = reader.get_enabled_packs().iter().map(|(p, _)| p.as_str()).collect();
    assert_eq!(enabled, vec!["pack2.smap"]);
    assert_eq!(read(&reader, "override.txt"), "Override2");
    let pack2 = reader.get_available_packs().iter().find(|(p, _)| p == "pack2.smap").unwrap();
    assert!(pack2.1.enabled);
}

#[test]
fn rearranging_override_packs() {
    let mut reader = AssetPackGroupReader::new(ROOT.to_string(), vec![]);
    reader.add_override_pack(AssetPackReader::new(pack(&[("f", "a")])).unwrap(), "a");
    reader.add_override_pack(AssetPackReader::new(pack(&[("f", "b")])).unwrap(), "b");
    reader.add_override_pack(AssetPackReader::new(pack(&[("f", "c")])).unwrap(), "c");
    load(&mut reader).unwrap();
    assert_eq!(read(&reader, "f"), "c");
    // "a" first: it has the most precedence; "b" is left out and returned.
    let removed = reader.rearrange_override_packs(&["a", "c", "unknown"]).unwrap();
    assert_eq!(removed.len(), 1);
    load(&mut reader).unwrap();
    assert_eq!(read(&reader, "f"), "a");
    assert!(reader.rearrange_override_packs(&["c", "a"]).is_none());
    load(&mut reader).unwrap();
    assert_eq!(read(&reader, "f"), "c");
    assert!(reader.remove_override_pack("c").is_some());
    assert!(reader.remove_override_pack("c").is_none());
    load(&mut reader).unwrap();
    assert_eq!(read(&reader, "f"), "a");
}

#[test]
fn built_in_packs_can_be_removed() {
    let mut reader = AssetPackGroupReader::new(ROOT.to_string(), vec![]);
    assert!(reader
        .register_built_in_pack("b", AssetPackReader::new(pack(&[("f", "1")])).unwrap())
        .is_none());
    assert!(reader
        .register_built_in_pack("b", AssetPackReader::new(pack(&[("f", "2")])).unwrap())
        .is_some());
    load(&mut reader).unwrap();
    assert_eq!(read(&reader, "f"), "2");
    assert!(reader.remove_built_in_pack("b").is_some());
    load(&mut reader).unwrap();
    assert!(matches!(reader.get_file_reader("f"), Ok(None)));
}

#[test]
fn re_adding_an_override_pack_puts_it_on_top() {
    let mut reader = AssetPackGroupReader::new(ROOT.to_string(), vec![]);
    reader.add_override_pack(AssetPackReader::new(pack(&[("f", "a")])).unwrap(), "a");
    reader.add_override_pack(AssetPackReader::new(pack(&[("f", "b")])).unwrap(), "b");
    load(&mut reader).unwrap();
    assert_eq!(read(&reader, "f"), "b");
    let old = reader.add_override_pack(AssetPackReader::new(pack(&[("f", "a2")])).unwrap(), "a");
    assert!(old.is_some());
    load(&mut reader).unwrap();
    assert_eq!(read(&reader, "f"), "a2");
}

#[test]
fn built_in_packs_are_not_available_packs() {
    let mut reader = AssetPackGroupReader::new(ROOT.to_string(), vec![]);
    reader.register_built_in_pack("b", AssetPackReader::new(pack(&[("f", "1")])).unwrap());
    load(&mut reader).unwrap();
    assert!(reader.get_available_packs().iter().all(|(p, _)| p != "/__built_in/b"));
    assert!(reader.get_enabled_packs().iter().any(|(p, _)| p == "/__built_in/b"));
    assert_eq!(read(&reader, "f"), "1");
    assert!(reader.remove_built_in_pack("missing").is_none());
    assert_eq!(read(&reader, "f"), "1");
}

#[test]
fn unlisted_built_in_packs_stay_after_listed_ones() {
    let mut reader = AssetPackGroupReader::new(ROOT.to_string(), vec![]);
    reader.register_built_in_pack("b", AssetPackReader::new(pack(&[("builtin.txt", "BuiltIn\n")])).unwrap());
    load(&mut reader).unwrap();
    reader.set_enabled_packs(&["pack1.smap"]);
    let names: Vec<&str> = reader.get_enabled_packs().iter().map(|(p, _)| p.as_str()).collect();
    assert_eq!(names, vec!["pack1.smap", "/__built_in/b"]);
    load(&mut reader).unwrap();
    assert_eq!(read(&reader, "builtin.txt"), "Overwritten\n");
}
