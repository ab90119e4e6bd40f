use smve_asset_pack::compression::{compress_asset, decompress};
use smve_asset_pack::errors::IoErrorKind;
use smve_asset_pack::file_reader::{MemoryFileReader, SeekFrom};

#[test]
fn memory_reader_reads_and_seeks() {
    let mut r = MemoryFileReader::new(b"0123456789".to_vec());
    assert_eq!(r.read(3), b"012");
    assert_eq!(r.seek(SeekFrom::Current(2)).unwrap(), 5);
    assert_eq!(r.read(100), b"56789");
    assert_eq!(r.read(1), b"");
    assert_eq!(r.seek(SeekFrom::End(-2)).unwrap(), 8);
    assert_eq!(r.read(5), b"89");
    assert_eq!(r.seek(SeekFrom::Start(1)).unwrap(), 1);
    assert!(matches!(r.seek(SeekFrom::Current(-5)), Err(IoErrorKind::InvalidInput)));
    assert_eq!(r.seek(SeekFrom::End(4)).unwrap(), 14);
    assert_eq!(r.read(1), b"");
}

#[test]
fn lz4_round_trip() {
    let data = b"aaaaaaaaaaaaaaaaaaaaaaaaaaaaaaaaaaaaaaaaaaaabbbbbbbbbbbbbbbb".to_vec();
    let frame = compress_asset(&data, 4).unwrap();
    assert_ne!(frame, data);
    assert_eq!(decompress(&frame).unwrap(), data);
    assert!(decompress(b"not a frame").is_none());
}
