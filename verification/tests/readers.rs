use unpak::normalize_name;
use unpak::Error;
use unpak::Rd;
use unpak::ReadExt;

#[test]
fn little_endian_integers() {
    let bytes = [0x01u8, 0x02, 0x03, 0x04, 0x05, 0x06, 0x07, 0x08, 0xFF];
    let mut rd = Rd::new(&bytes);
    assert_eq!(rd.read_u32().unwrap(), 0x04030201);
    assert_eq!(rd.read_u16().unwrap(), 0x0605);
    assert_eq!(rd.read_u8().unwrap(), 0x07);
    let mut rd2 = Rd::new(&bytes);
    assert_eq!(rd2.read_u64().unwrap(), 0x0807060504030201);
    assert_eq!(rd2.read_u8().unwrap(), 0xFF);
    assert!(matches!(rd2.read_u32(), Err(Error::Io)));
}

#[test]
fn bool_bytes() {
    let bytes = [1u8, 0, 7];
    let mut rd = Rd::new(&bytes);
    assert_eq!(rd.read_bool().unwrap(), true);
    assert_eq!(rd.read_bool().unwrap(), false);
    assert!(matches!(rd.read_bool(), Err(Error::InvalidBoolean(7))));
}

#[test]
fn utf8_string_with_terminator() {
    let mut bytes = Vec::new();
    bytes.extend_from_slice(&6u32.to_le_bytes());
    bytes.extend_from_slice(b"hello\0");
    let mut rd = Rd::new(&bytes);
    assert_eq!(rd.read_string().unwrap(), "hello");
}

#[test]
fn utf16_string_negative_prefix() {
    // a negative length prefix announces UTF-16 code units
    let mut bytes = Vec::new();
    bytes.extend_from_slice(&(-3i32 as u32).to_le_bytes());
    for u in [0x68u16, 0x69, 0] {
        bytes.extend_from_slice(&u.to_le_bytes());
    }
    let mut rd = Rd::new(&bytes);
    assert_eq!(rd.read_string().unwrap(), "hi");
}

#[test]
fn invalid_utf8_rejected() {
    let mut bytes = Vec::new();
    bytes.extend_from_slice(&3u32.to_le_bytes());
    bytes.extend_from_slice(&[0xFF, 0xFE, 0]);
    let mut rd = Rd::new(&bytes);
    assert!(matches!(rd.read_string(), Err(Error::StringDecode)));
}

#[test]
fn truncated_string_is_io() {
    let mut bytes = Vec::new();
    bytes.extend_from_slice(&100u32.to_le_bytes());
    bytes.extend_from_slice(b"short");
    let mut rd = Rd::new(&bytes);
    assert!(matches!(rd.read_string(), Err(Error::Io)));
}

#[test]
fn normalization_game_rule() {
    assert_eq!(
        normalize_name("../../FooGame/Content/Textures/T.uasset"),
        "/Game/Textures/T.uasset"
    );
}

#[test]
fn normalization_engine_rule() {
    assert_eq!(normalize_name("Engine/Content/Core/X.uasset"), "/Engine/Core/X.uasset");
}

#[test]
fn normalization_plain_path() {
    assert_eq!(normalize_name("Files/readme.txt"), "/Files/readme.txt");
}

#[test]
fn name_reading_applies_normalization() {
    let mut bytes = Vec::new();
    let s = b"A/Content/B.txt\0";
    bytes.extend_from_slice(&(s.len() as u32).to_le_bytes());
    bytes.extend_from_slice(s);
    let mut rd = Rd::new(&bytes);
    assert_eq!(rd.read_name().unwrap(), "/Game/B.txt");
}
