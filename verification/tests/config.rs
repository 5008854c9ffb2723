use terribledb::config::{load, load_v1, new, save, with_name, ConfigError};
use terribledb::endian::{get_u16, get_u32, get_u64, put_u16, put_u32, put_u64, read_be, write_be};

#[test]
fn new_record_is_latest_version_with_empty_name() {
    let cfg = new();
    assert_eq!(cfg.version(), 1);
    assert_eq!(cfg.name(), [0u8; 64]);
}

#[test]
fn with_name_pads_with_zeros() {
    let cfg = with_name("node-a");
    let mut expected = [0u8; 64];
    expected[..6].copy_from_slice(b"node-a");
    assert_eq!(cfg.version(), 1);
    assert_eq!(cfg.name(), expected);
}

#[test]
fn with_name_takes_sixty_three_bytes() {
    let name = "x".repeat(63);
    let cfg = with_name(&name);
    let mut expected = [b'x'; 64];
    expected[63] = 0;
    assert_eq!(cfg.name(), expected);
}

#[test]
fn with_name_of_sixty_four_bytes_leaves_name_empty() {
    let name = "y".repeat(64);
    assert_eq!(with_name(&name).name(), [0u8; 64]);
    let longer = "z".repeat(200);
    assert_eq!(with_name(&longer).name(), [0u8; 64]);
}

#[test]
fn save_lays_out_magic_version_name() {
    let bytes = save(&with_name("ab"));
    assert_eq!(bytes.len(), 70);
    assert_eq!(&bytes[0..4], &[0xDE, 0xAD, 0xBE, 0xEF]);
    assert_eq!(&bytes[4..6], &[0x00, 0x01]);
    assert_eq!(&bytes[6..8], b"ab");
    assert!(bytes[8..].iter().all(|b| *b == 0));
}

#[test]
fn load_gives_back_what_save_wrote() {
    let cfg = with_name("terrible");
    let bytes = save(&cfg);
    let back = load(&bytes).expect("a saved record loads");
    assert_eq!(back.version(), 1);
    assert_eq!(back.name(), cfg.name());
}

#[test]
fn load_ignores_bytes_after_the_record() {
    let mut bytes = save(&with_name("n"));
    bytes.extend_from_slice(&[9, 9, 9]);
    let back = load(&bytes).expect("trailing bytes are not read");
    assert_eq!(back.name(), with_name("n").name());
}

#[test]
fn load_rejects_short_input() {
    assert_eq!(load(&[]).err(), Some(ConfigError::UnexpectedEof));
    assert_eq!(load(&[0xDE, 0xAD, 0xBE]).err(), Some(ConfigError::UnexpectedEof));
    assert_eq!(load(&[0xDE, 0xAD, 0xBE, 0xEF]).err(), Some(ConfigError::UnexpectedEof));
    assert_eq!(load(&[0xDE, 0xAD, 0xBE, 0xEF, 0]).err(), Some(ConfigError::UnexpectedEof));
    let bytes = save(&new());
    assert_eq!(load(&bytes[..69]).err(), Some(ConfigError::UnexpectedEof));
    assert_eq!(load(&bytes[..6]).err(), Some(ConfigError::UnexpectedEof));
}

#[test]
fn load_rejects_wrong_magic() {
    let mut bytes = save(&new());
    bytes[3] = 0xEE;
    assert_eq!(load(&bytes).err(), Some(ConfigError::MagicMismatch));
    assert_eq!(load(&[1, 2, 3, 4]).err(), Some(ConfigError::MagicMismatch));
}

#[test]
fn load_rejects_unknown_version() {
    let mut bytes = save(&new());
    bytes[5] = 2;
    assert_eq!(load(&bytes).err(), Some(ConfigError::UnknownVersion));
    bytes[4] = 1;
    bytes[5] = 1;
    assert_eq!(load(&bytes).err(), Some(ConfigError::UnknownVersion));
    assert_eq!(load(&[0xDE, 0xAD, 0xBE, 0xEF, 0, 0]).err(), Some(ConfigError::UnknownVersion));
}

#[test]
fn load_v1_reads_sixty_four_bytes() {
    let mut body = vec![7u8; 64];
    body.push(1);
    let cfg = load_v1(&body).expect("a full name field");
    assert_eq!(cfg.version(), 1);
    assert_eq!(cfg.name(), [7u8; 64]);
    assert_eq!(load_v1(&body[..63]).err(), Some(ConfigError::UnexpectedEof));
}

#[test]
fn big_endian_numbers_are_written_most_significant_first() {
    let mut out = vec![0xAAu8];
    put_u16(&mut out, 0x0102);
    put_u32(&mut out, 0x0304_0506);
    put_u64(&mut out, 0x0708_090A_0B0C_0D0E);
    assert_eq!(out, vec![0xAA, 1, 2, 3, 4, 5, 6, 7, 8, 9, 10, 11, 12, 13, 14]);
    assert_eq!(get_u16(&out, 1), 0x0102);
    assert_eq!(get_u32(&out, 3), 0x0304_0506);
    assert_eq!(get_u64(&out, 7), 0x0708_090A_0B0C_0D0E);
}

#[test]
fn big_endian_numbers_of_any_width() {
    let mut out = Vec::new();
    write_be(&mut out, 0x0001_0203, 3);
    assert_eq!(out, vec![1, 2, 3]);
    write_be(&mut out, 0xFFFF, 0);
    assert_eq!(out, vec![1, 2, 3]);
    assert_eq!(read_be(&out, 0, 3), 0x0001_0203);
    assert_eq!(read_be(&out, 1, 2), 0x0203);
    assert_eq!(read_be(&out, 3, 0), 0);
    let mut max = Vec::new();
    put_u64(&mut max, u64::MAX);
    assert_eq!(max, vec![0xFF; 8]);
    assert_eq!(get_u64(&max, 0), u64::MAX);
}
