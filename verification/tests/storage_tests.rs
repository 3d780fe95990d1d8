use lp_littlefs::block::{AlignStorage, BlockDevice};
use lp_littlefs::config::Config;
use lp_littlefs::error::Error;
use lp_littlefs::info::{FileType, Info};

#[test]
fn align_storage_starts_zeroed_and_erase_all_sets_ff() {
    let config = Config::default_for_tests(4);
    let mut s = AlignStorage::new(&config);
    let mut buf = [0x55u8; 16];
    s.read(3, 0, &mut buf).unwrap();
    assert_eq!(buf, [0u8; 16]);
    s.erase_all();
    s.read(3, 496, &mut buf).unwrap();
    assert_eq!(buf, [0xffu8; 16]);
}

#[test]
fn align_storage_prog_read_back_and_bounds() {
    let config = Config::default_for_tests(4);
    let mut s = AlignStorage::new(&config);
    s.erase(1).unwrap();
    s.prog(1, 10, b"littlefs").unwrap();
    let mut buf = [0u8; 10];
    s.read(1, 9, &mut buf).unwrap();
    assert_eq!(&buf, b"\xfflittlefs\xff");
    assert!(matches!(s.read(4, 0, &mut buf), Err(Error::Inval)));
    assert!(matches!(s.prog(0, 510, b"abc"), Err(Error::Inval)));
    assert!(matches!(s.erase(9), Err(Error::Inval)));
    assert!(s.sync().is_ok());
}

#[test]
fn info_name_rejects_invalid_utf8() {
    let mut info = Info::new(FileType::Reg, 0);
    info.set_name(&[0x66, 0xff, 0x6f]);
    assert!(info.name().is_err());
    assert_eq!(info.name_bytes(), &[0x66, 0xff, 0x6f]);
    info.set_name("tea".as_bytes());
    assert_eq!(info.name().unwrap(), "tea");
}
