use aes::cipher::BlockCipherEncrypt;
use aes::cipher::KeyInit;
use base64::Engine;
use unpak::Error;
use unpak::Pak;
use unpak::Version;

const MAGIC: u32 = 0x5A6F12E1;

fn push_str(out: &mut Vec<u8>, s: &str) {
    let b = s.as_bytes();
    out.extend_from_slice(&((b.len() as u32 + 1).to_le_bytes()));
    out.extend_from_slice(b);
    out.push(0);
}

/// A verbose entry record with no compression.
fn ventry(offset: u64, size: u64, encrypted: bool) -> Vec<u8> {
    let mut v = Vec::new();
    v.extend_from_slice(&offset.to_le_bytes());
    v.extend_from_slice(&size.to_le_bytes());
    v.extend_from_slice(&size.to_le_bytes());
    v.extend_from_slice(&0u32.to_le_bytes());
    v.push(0);
    v.push(if encrypted { 1 } else { 0 });
    v.extend_from_slice(&0u32.to_le_bytes());
    v.extend_from_slice(&[0u8; 20]);
    v
}

/// A compact entry record with no compression, full-width fields.
fn centry(offset: u64, size: u64, encrypted: bool) -> Vec<u8> {
    let mut v = Vec::new();
    let flags: u32 = if encrypted { 1 } else { 0 };
    v.extend_from_slice(&flags.to_le_bytes());
    v.extend_from_slice(&offset.to_le_bytes());
    v.extend_from_slice(&size.to_le_bytes());
    v
}

fn footer_bytes(vn: u32, index_offset: u64, index_size: u64, encrypted: bool) -> Vec<u8> {
    let mut f = Vec::new();
    if vn >= 7 {
        f.extend_from_slice(&[0u8; 16]);
    }
    if vn >= 4 {
        f.push(if encrypted { 1 } else { 0 });
    }
    f.extend_from_slice(&MAGIC.to_le_bytes());
    f.extend_from_slice(&vn.to_le_bytes());
    f.extend_from_slice(&index_offset.to_le_bytes());
    f.extend_from_slice(&index_size.to_le_bytes());
    f.extend_from_slice(&[0u8; 20]);
    if vn == 9 {
        f.push(0);
    }
    if vn >= 8 {
        let names: [&[u8]; 6] = [b"Zlib", b"Gzip", b"Store", b"", b"", b""];
        let count = if vn >= 11 { 6 } else { 5 };
        for name in names.iter().take(count) {
            let mut slot = [0u8; 32];
            slot[..name.len()].copy_from_slice(name);
            f.extend_from_slice(&slot);
        }
    }
    f
}

fn aes_encrypt_in_place(key: &[u8; 32], buf: &mut [u8]) {
    let enc = aes::Aes256Enc::new_from_slice(key).unwrap();
    for chunk in buf.chunks_mut(16) {
        if chunk.len() == 16 {
            let mut b = aes::Block::try_from(&*chunk).unwrap();
            enc.encrypt_block(&mut b);
            chunk.copy_from_slice(b.as_slice());
        }
    }
}

fn pad16(mut v: Vec<u8>) -> Vec<u8> {
    while v.len() % 16 != 0 {
        v.push(0);
    }
    v
}

/// A legacy (flat index) archive holding uncompressed files.
fn build_legacy(vn: u32, files: &[(&str, &[u8])], key: Option<&[u8; 32]>) -> Vec<u8> {
    let mut data = Vec::new();
    let mut offsets = Vec::new();
    for (_, content) in files {
        let o = data.len() as u64;
        offsets.push(o);
        data.extend_from_slice(&ventry(o, content.len() as u64, false));
        data.extend_from_slice(content);
    }
    let mut index = Vec::new();
    push_str(&mut index, "../../../");
    index.extend_from_slice(&(files.len() as u32).to_le_bytes());
    for (i, (name, content)) in files.iter().enumerate() {
        push_str(&mut index, name);
        index.extend_from_slice(&ventry(offsets[i], content.len() as u64, false));
    }
    let mut index = pad16(index);
    let encrypted = key.is_some();
    if let Some(k) = key {
        aes_encrypt_in_place(k, &mut index);
    }
    let io = data.len() as u64;
    let is = index.len() as u64;
    data.extend_from_slice(&index);
    data.extend_from_slice(&footer_bytes(vn, io, is, encrypted));
    data
}

/// A path-hash/full-directory archive holding uncompressed files under one
/// directory, with compact encoded entries.
fn build_v10(dir: &str, files: &[(&str, &[u8])], key: Option<&[u8; 32]>) -> Vec<u8> {
    build_phi(10, dir, files, key)
}

/// A path-hash/full-directory archive under a chosen dialect.
fn build_phi(vn: u32, dir: &str, files: &[(&str, &[u8])], key: Option<&[u8; 32]>) -> Vec<u8> {
    let mut data = Vec::new();
    let mut offsets = Vec::new();
    for (_, content) in files {
        let o = data.len() as u64;
        offsets.push(o);
        data.extend_from_slice(&ventry(o, content.len() as u64, false));
        data.extend_from_slice(content);
    }
    // encoded entries blob
    let mut encoded = Vec::new();
    let mut eoffs = Vec::new();
    for (i, (_, content)) in files.iter().enumerate() {
        eoffs.push(encoded.len() as u32);
        encoded.extend_from_slice(&centry(offsets[i], content.len() as u64, false));
    }
    // full directory index blob
    let mut fdi = Vec::new();
    fdi.extend_from_slice(&1u32.to_le_bytes());
    push_str(&mut fdi, dir);
    fdi.extend_from_slice(&(files.len() as u32).to_le_bytes());
    for (i, (name, _)) in files.iter().enumerate() {
        push_str(&mut fdi, name);
        fdi.extend_from_slice(&eoffs[i].to_le_bytes());
    }
    let mut fdi = pad16(fdi);
    let encrypted = key.is_some();
    if let Some(k) = key {
        aes_encrypt_in_place(k, &mut fdi);
    }
    let fdi_off = data.len() as u64;
    let fdi_size = fdi.len() as u64;
    data.extend_from_slice(&fdi);
    let mut index = Vec::new();
    push_str(&mut index, "../../../");
    index.extend_from_slice(&(files.len() as u32).to_le_bytes());
    index.extend_from_slice(&0u64.to_le_bytes());
    index.extend_from_slice(&0u32.to_le_bytes());
    index.extend_from_slice(&1u32.to_le_bytes());
    index.extend_from_slice(&fdi_off.to_le_bytes());
    index.extend_from_slice(&fdi_size.to_le_bytes());
    index.extend_from_slice(&[0u8; 20]);
    index.extend_from_slice(&(encoded.len() as u32).to_le_bytes());
    index.extend_from_slice(&encoded);
    let mut index = pad16(index);
    if let Some(k) = key {
        aes_encrypt_in_place(k, &mut index);
    }
    let io = data.len() as u64;
    let is = index.len() as u64;
    data.extend_from_slice(&index);
    data.extend_from_slice(&footer_bytes(vn, io, is, encrypted));
    data
}

const KEY: [u8; 32] = [7u8; 32];

fn key_hash() -> Vec<u8> {
    base64::engine::general_purpose::STANDARD.encode(KEY).into_bytes()
}

#[test]
fn roundtrip_legacy_v8() {
    let files: [(&str, &[u8]); 2] = [("Files/a.txt", b"hello pak"), ("Files/b.bin", &[0u8, 1, 2, 3, 255])];
    let data = build_legacy(8, &files, None);
    let pak = Pak::new(&data, Version::FNameBasedCompression, None).unwrap();
    assert_eq!(pak.mount_point(), "../../../");
    assert_eq!(pak.get("/Files/a.txt", &data).unwrap(), b"hello pak".to_vec());
    assert_eq!(pak.get("/Files/b.bin", &data).unwrap(), vec![0u8, 1, 2, 3, 255]);
}

#[test]
fn roundtrip_every_dialect_legacy() {
    let files: [(&str, &[u8]); 1] = [("Files/a.txt", b"same bytes in every dialect")];
    for vn in [1u32, 2, 3, 4, 5, 6, 7, 8, 9] {
        let data = build_legacy(vn, &files, None);
        let pak = Pak::load(&data, None).unwrap();
        assert_eq!(pak.version().num(), vn, "dialect {vn}");
        assert_eq!(
            pak.get("/Files/a.txt", &data).unwrap(),
            b"same bytes in every dialect".to_vec()
        );
    }
    for vn in [10u32, 11] {
        let data = build_phi(vn, "Files/", &[("a.txt", files[0].1)], None);
        let pak = Pak::load(&data, None).unwrap();
        assert_eq!(pak.version().num(), vn, "dialect {vn}");
        assert_eq!(
            pak.get("/Files/a.txt", &data).unwrap(),
            b"same bytes in every dialect".to_vec()
        );
    }
}

#[test]
fn roundtrip_v10_compact() {
    let files: [(&str, &[u8]); 2] = [("a.txt", b"compact entry a"), ("b.txt", b"compact entry b")];
    let data = build_v10("Dir/", &files, None);
    let pak = Pak::load(&data, None).unwrap();
    assert_eq!(pak.version().num(), 10);
    let mut names = pak.entries();
    names.sort();
    assert_eq!(names, vec!["/Dir/a.txt".to_string(), "/Dir/b.txt".to_string()]);
    assert_eq!(pak.get("/Dir/a.txt", &data).unwrap(), b"compact entry a".to_vec());
    assert_eq!(pak.get("/Dir/b.txt", &data).unwrap(), b"compact entry b".to_vec());
}

#[test]
fn roundtrip_encrypted_index() {
    let files: [(&str, &[u8]); 1] = [("Files/s.txt", b"secret payload")];
    let data = build_legacy(8, &files, Some(&KEY));
    let hash = key_hash();
    let pak = Pak::load(&data, Some(&hash)).unwrap();
    assert_eq!(pak.mount_point(), "../../../");
    assert_eq!(pak.get("/Files/s.txt", &data).unwrap(), b"secret payload".to_vec());
}

#[test]
fn roundtrip_encrypted_v10() {
    let files: [(&str, &[u8]); 2] = [("a.txt", b"enc a"), ("b.txt", b"enc b")];
    let data = build_v10("Dir/", &files, Some(&KEY));
    let hash = key_hash();
    let pak = Pak::load(&data, Some(&hash)).unwrap();
    assert_eq!(pak.get("/Dir/a.txt", &data).unwrap(), b"enc a".to_vec());
    assert_eq!(pak.get("/Dir/b.txt", &data).unwrap(), b"enc b".to_vec());
}

#[test]
fn roundtrip_encrypted_payload() {
    // the payload itself is encrypted: stored padded to the cipher block
    let content = b"payload under the cipher";
    let mut data = Vec::new();
    let o = 0u64;
    data.extend_from_slice(&ventry(o, content.len() as u64, true));
    let mut payload = pad16(content.to_vec());
    aes_encrypt_in_place(&KEY, &mut payload);
    data.extend_from_slice(&payload);
    let mut index = Vec::new();
    push_str(&mut index, "../../../");
    index.extend_from_slice(&1u32.to_le_bytes());
    push_str(&mut index, "Files/enc.bin");
    index.extend_from_slice(&ventry(o, content.len() as u64, true));
    let mut index = pad16(index);
    aes_encrypt_in_place(&KEY, &mut index);
    let io = data.len() as u64;
    let is = index.len() as u64;
    data.extend_from_slice(&index);
    data.extend_from_slice(&footer_bytes(8, io, is, true));
    let hash = key_hash();
    let pak = Pak::load(&data, Some(&hash)).unwrap();
    assert_eq!(pak.get("/Files/enc.bin", &data).unwrap(), content.to_vec());
}

#[test]
fn autodetect_reports_matching_dialect() {
    let files: [(&str, &[u8]); 1] = [("Files/a.txt", b"x")];
    let data = build_legacy(5, &files, None);
    let pak = Pak::load(&data, None).unwrap();
    assert_eq!(pak.version().num(), 5);
    assert!(matches!(pak.version(), Version::RelativeChunkOffsets));
}

#[test]
fn autodetect_exhausted_is_parse() {
    let garbage = vec![0x42u8; 300];
    match Pak::load(&garbage, None) {
        Err(Error::Parse) => (),
        other => panic!("expected the exhausted-list error, got {:?}", other.map(|_| ())),
    }
    let tiny = vec![1u8, 2, 3];
    match Pak::load(&tiny, None) {
        Err(Error::Parse) => (),
        other => panic!("expected the exhausted-list error, got {:?}", other.map(|_| ())),
    }
}

#[test]
fn encrypted_without_key() {
    let files: [(&str, &[u8]); 1] = [("Files/s.txt", b"secret")];
    let data = build_legacy(8, &files, Some(&KEY));
    match Pak::new(&data, Version::FNameBasedCompression, None) {
        Err(Error::EncryptedWithoutKey) => (),
        other => panic!("expected EncryptedWithoutKey, got {:?}", other.map(|_| ())),
    }
}

#[test]
fn malformed_key_is_reported() {
    let files: [(&str, &[u8]); 1] = [("Files/s.txt", b"secret")];
    let data = build_legacy(8, &files, Some(&KEY));
    match Pak::new(&data, Version::FNameBasedCompression, Some(b"!!! not base64 !!!")) {
        Err(Error::MalformedKey) => (),
        other => panic!("expected MalformedKey, got {:?}", other.map(|_| ())),
    }
    // valid base64, wrong key length
    let short = base64::engine::general_purpose::STANDARD.encode([1u8; 7]);
    match Pak::new(&data, Version::FNameBasedCompression, Some(short.as_bytes())) {
        Err(Error::MalformedKey) => (),
        other => panic!("expected MalformedKey, got {:?}", other.map(|_| ())),
    }
}

#[test]
fn encrypted_catalog_equals_plain_catalog() {
    let files: [(&str, &[u8]); 2] = [("Files/a.txt", b"aaa"), ("Files/b.txt", b"bbb")];
    let plain = build_legacy(8, &files, None);
    let enc = build_legacy(8, &files, Some(&KEY));
    let hash = key_hash();
    let p1 = Pak::load(&plain, None).unwrap();
    let p2 = Pak::load(&enc, Some(&hash)).unwrap();
    assert_eq!(p1.mount_point(), p2.mount_point());
    let mut n1 = p1.entries();
    let mut n2 = p2.entries();
    n1.sort();
    n2.sort();
    assert_eq!(n1, n2);
}

#[test]
fn missing_entry() {
    let files: [(&str, &[u8]); 1] = [("Files/a.txt", b"x")];
    let data = build_legacy(8, &files, None);
    let pak = Pak::load(&data, None).unwrap();
    match pak.get("/Files/nope.txt", &data) {
        Err(Error::MissingEntry(p)) => assert_eq!(p, "/Files/nope.txt"),
        other => panic!("expected MissingEntry, got {:?}", other.map(|_| ())),
    }
}

#[test]
fn invalid_boolean_in_trailer() {
    let files: [(&str, &[u8]); 1] = [("Files/a.txt", b"x")];
    let mut data = build_legacy(8, &files, None);
    // the encrypted flag sits right before the magic in the trailer
    let flag_pos = data.len() - (4 + 4 + 8 + 8 + 20 + 160) - 1;
    data[flag_pos] = 2;
    match Pak::new(&data, Version::FNameBasedCompression, None) {
        Err(Error::InvalidBoolean(2)) => (),
        other => panic!("expected InvalidBoolean(2), got {:?}", other.map(|_| ())),
    }
}

#[test]
fn entries_enumeration_idempotent() {
    let files: [(&str, &[u8]); 3] =
        [("Files/a.txt", b"1"), ("Files/b.txt", b"2"), ("Files/c.txt", b"3")];
    let data = build_legacy(8, &files, None);
    let pak = Pak::load(&data, None).unwrap();
    let mut n1 = pak.entries();
    let mut n2 = pak.entries();
    n1.sort();
    n2.sort();
    assert_eq!(n1, n2);
    n1.dedup();
    assert_eq!(n1.len(), 3);

    let v10 = build_v10("Dir/", &files, None);
    let pak10 = Pak::load(&v10, None).unwrap();
    let mut m1 = pak10.entries();
    let mut m2 = pak10.entries();
    m1.sort();
    m2.sort();
    assert_eq!(m1, m2);
    m1.dedup();
    assert_eq!(m1.len(), 3);
}

#[test]
fn compact_store_uniform_blocks() {
    // a compact record with reduced-width fields and a uniform block list,
    // under the identity codec
    let content = b"0123456789";
    let blocks: [(u64, u64); 2] = [(0, 6), (6, 4)];
    let mut data = Vec::new();
    // inner verbose record: method index 3 selects "Store" in the table
    let mut rec = Vec::new();
    rec.extend_from_slice(&0u64.to_le_bytes());
    rec.extend_from_slice(&10u64.to_le_bytes());
    rec.extend_from_slice(&10u64.to_le_bytes());
    rec.extend_from_slice(&3u32.to_le_bytes());
    rec.push(0);
    rec.push(0);
    rec.extend_from_slice(&2u32.to_le_bytes());
    rec.extend_from_slice(&0u32.to_le_bytes());
    rec.extend_from_slice(&[0u8; 20]);
    for (s, z) in blocks {
        rec.extend_from_slice(&s.to_le_bytes());
        rec.extend_from_slice(&z.to_le_bytes());
    }
    data.extend_from_slice(&rec);
    data.extend_from_slice(content);
    // compact record: offset, uncompressed and compressed stored 32-bit
    let mut encoded = Vec::new();
    let flags: u32 = 2 + 4 + 8 + 3 * 256;
    encoded.extend_from_slice(&flags.to_le_bytes());
    encoded.extend_from_slice(&0u32.to_le_bytes());
    encoded.extend_from_slice(&10u32.to_le_bytes());
    encoded.extend_from_slice(&10u32.to_le_bytes());
    encoded.extend_from_slice(&2u32.to_le_bytes());
    encoded.extend_from_slice(&6u32.to_le_bytes());
    let mut fdi = Vec::new();
    fdi.extend_from_slice(&1u32.to_le_bytes());
    push_str(&mut fdi, "Dir/");
    fdi.extend_from_slice(&1u32.to_le_bytes());
    push_str(&mut fdi, "u.bin");
    fdi.extend_from_slice(&0u32.to_le_bytes());
    let fdi_off = data.len() as u64;
    let fdi_size = fdi.len() as u64;
    data.extend_from_slice(&fdi);
    let mut index = Vec::new();
    push_str(&mut index, "../../../");
    index.extend_from_slice(&1u32.to_le_bytes());
    index.extend_from_slice(&0u64.to_le_bytes());
    index.extend_from_slice(&0u32.to_le_bytes());
    index.extend_from_slice(&1u32.to_le_bytes());
    index.extend_from_slice(&fdi_off.to_le_bytes());
    index.extend_from_slice(&fdi_size.to_le_bytes());
    index.extend_from_slice(&[0u8; 20]);
    index.extend_from_slice(&(encoded.len() as u32).to_le_bytes());
    index.extend_from_slice(&encoded);
    let io = data.len() as u64;
    let is = index.len() as u64;
    data.extend_from_slice(&index);
    data.extend_from_slice(&footer_bytes(10, io, is, false));
    let pak = Pak::load(&data, None).unwrap();
    assert_eq!(pak.get("/Dir/u.bin", &data).unwrap(), content.to_vec());
}
