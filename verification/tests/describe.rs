use smve_asset_pack::describe::{push_decimal, UncookerStep};
use smve_asset_pack::errors::ReadStep;
use smve_asset_pack::format::FileMeta;

#[test]
fn decimal_digits() {
    for n in [0u64, 7, 10, 255, 1234567890, u64::MAX] {
        let mut s = String::new();
        push_decimal(&mut s, n);
        assert_eq!(s, n.to_string());
    }
}

#[test]
fn read_step_messages() {
    assert_eq!(ReadStep::ValidateHeader.message(), "validating asset pack header");
    assert_eq!(
        ReadStep::LoadGroupOpenPack("p.smap".to_string()).message(),
        "opening asset pack at p.smap when loading pack group"
    );
}

#[test]
fn meta_is_written_as_alternate_debug() {
    let meta = FileMeta { hash: [3u8; 32], flags: 5, offset: 70, size: 12 };
    let expected = format!("decompressing asset file with meta {meta:#?}");
    assert_eq!(ReadStep::DecompressFile(meta).message(), expected);
}

#[test]
fn uncooker_step_messages() {
    assert_eq!(UncookerStep::Initialize.message(), "initializing lua runtime");
    assert_eq!(UncookerStep::GetGlobals.message(), "getting globals");
    assert_eq!(UncookerStep::RunUncook.message(), "running uncook function");
}
