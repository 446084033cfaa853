use unpak::Error;
use unpak::Pak;
use unpak::Version;

const MAGIC: u32 = 0x5A6F12E1;

fn push_str(out: &mut Vec<u8>, s: &str) {
    let b = s.as_bytes();
    out.extend_from_slice(&((b.len() as u32 + 1).to_le_bytes()));
    out.extend_from_slice(b);
    out.push(0);
}

/// A verbose entry record with a non-trivial method and an explicit block
/// list.
fn ventry_blocks(offset: u64, comp: u64, unc: u64, mi: u32, blocks: &[(u64, u64)]) -> Vec<u8> {
    let mut v = Vec::new();
    v.extend_from_slice(&offset.to_le_bytes());
    v.extend_from_slice(&comp.to_le_bytes());
    v.extend_from_slice(&unc.to_le_bytes());
    v.extend_from_slice(&mi.to_le_bytes());
    v.push(0);
    v.push(0);
    v.extend_from_slice(&(blocks.len() as u32).to_le_bytes());
    v.extend_from_slice(&0u32.to_le_bytes());
    v.extend_from_slice(&[0u8; 20]);
    for (s, z) in blocks {
        v.extend_from_slice(&s.to_le_bytes());
        v.extend_from_slice(&z.to_le_bytes());
    }
    v
}

fn footer_v8(index_offset: u64, index_size: u64) -> Vec<u8> {
    let mut f = Vec::new();
    f.extend_from_slice(&[0u8; 16]);
    f.push(0);
    f.extend_from_slice(&MAGIC.to_le_bytes());
    f.extend_from_slice(&8u32.to_le_bytes());
    f.extend_from_slice(&index_offset.to_le_bytes());
    f.extend_from_slice(&index_size.to_le_bytes());
    f.extend_from_slice(&[0u8; 20]);
    let names: [&[u8]; 5] = [b"Zlib", b"Gzip", b"Store", b"", b""];
    for name in names {
        let mut slot = [0u8; 32];
        slot[..name.len()].copy_from_slice(name);
        f.extend_from_slice(&slot);
    }
    f
}

fn build_with_blocks(mi: u32, comp: u64, unc: u64, blocks: &[(u64, u64)]) -> Vec<u8> {
    let mut data = Vec::new();
    let rec = ventry_blocks(0, comp, unc, mi, blocks);
    data.extend_from_slice(&rec);
    data.extend_from_slice(&vec![0xABu8; comp as usize]);
    let mut index = Vec::new();
    push_str(&mut index, "../../../");
    index.extend_from_slice(&1u32.to_le_bytes());
    push_str(&mut index, "Files/c.bin");
    index.extend_from_slice(&ventry_blocks(0, comp, unc, mi, blocks));
    let io = data.len() as u64;
    let is = index.len() as u64;
    data.extend_from_slice(&index);
    data.extend_from_slice(&footer_v8(io, is));
    data
}

#[test]
fn contiguous_blocks_decode() {
    // Zlib is recognized, so the entry decodes; only extraction refuses it
    let data = build_with_blocks(1, 10, 32, &[(0, 6), (6, 4)]);
    let pak = Pak::new(&data, Version::FNameBasedCompression, None).unwrap();
    assert_eq!(pak.entries(), vec!["/Files/c.bin".to_string()]);
    match pak.get("/Files/c.bin", &data) {
        Err(Error::UnsupportedCompression) => (),
        other => panic!("expected UnsupportedCompression, got {:?}", other.map(|_| ())),
    }
}

#[test]
fn gapped_blocks_rejected_at_decode() {
    let data = build_with_blocks(1, 10, 32, &[(0, 6), (7, 3)]);
    match Pak::new(&data, Version::FNameBasedCompression, None) {
        Err(Error::Parse) => (),
        other => panic!("expected Parse, got {:?}", other.map(|_| ())),
    }
}

#[test]
fn short_block_sum_rejected_at_decode() {
    let data = build_with_blocks(1, 10, 32, &[(0, 6), (6, 3)]);
    match Pak::new(&data, Version::FNameBasedCompression, None) {
        Err(Error::Parse) => (),
        other => panic!("expected Parse, got {:?}", other.map(|_| ())),
    }
}

#[test]
fn descending_blocks_rejected_at_decode() {
    let data = build_with_blocks(1, 10, 32, &[(6, 4), (0, 6)]);
    match Pak::new(&data, Version::FNameBasedCompression, None) {
        Err(Error::Parse) => (),
        other => panic!("expected Parse, got {:?}", other.map(|_| ())),
    }
}

#[test]
fn store_blocks_extract_identically() {
    // the Store codec is the identity: blocks concatenate back to the file
    let content = b"0123456789";
    let mut data = Vec::new();
    let rec = ventry_blocks(0, 10, 10, 3, &[(0, 6), (6, 4)]);
    data.extend_from_slice(&rec);
    data.extend_from_slice(content);
    let mut index = Vec::new();
    push_str(&mut index, "../../../");
    index.extend_from_slice(&1u32.to_le_bytes());
    push_str(&mut index, "Files/s.bin");
    index.extend_from_slice(&ventry_blocks(0, 10, 10, 3, &[(0, 6), (6, 4)]));
    let io = data.len() as u64;
    let is = index.len() as u64;
    data.extend_from_slice(&index);
    data.extend_from_slice(&footer_v8(io, is));
    let pak = Pak::new(&data, Version::FNameBasedCompression, None).unwrap();
    assert_eq!(pak.get("/Files/s.bin", &data).unwrap(), content.to_vec());
}

#[test]
fn unknown_method_index_refused() {
    let data = build_with_blocks(9, 10, 32, &[(0, 10)]);
    match Pak::new(&data, Version::FNameBasedCompression, None) {
        Err(Error::UnsupportedCompression) => (),
        other => panic!("expected UnsupportedCompression, got {:?}", other.map(|_| ())),
    }
}
