use std::io::Write;
use mpq::crypt::CryptTable;

#[test]
fn hash_string_table_position() {
    let ct = CryptTable::new();
    assert_eq!(ct.hash_string("arr\\units.dat", 0x000), 0xF4E6C69D);
}

#[test]
fn hash_string_separator_and_case_normalization() {
    let ct = CryptTable::new();
    assert_eq!(
        ct.hash_string("ARR/UNITS.DAT", 0x000),
        ct.hash_string("arr\\units.dat", 0x000)
    );
}

#[test]
fn hash_string_all_segments() {
    let ct = CryptTable::new();
    assert_eq!(ct.hash_string("arr\\units.dat", 0x100), 0x0EC8CB19);
    assert_eq!(ct.hash_string("arr\\units.dat", 0x200), 0x16B0AAFF);
    assert_eq!(ct.hash_string("arr\\units.dat", 0x300), 0x3CD8B78A);
}

#[test]
fn hash_string_normalization_every_segment() {
    let ct = CryptTable::new();
    for off in [0x000u32, 0x100, 0x200, 0x300] {
        assert_eq!(
            ct.hash_string("Units/Human/Footman.mdx", off),
            ct.hash_string("UNITS\\HUMAN\\FOOTMAN.MDX", off)
        );
    }
}

#[test]
fn hash_string_directory_keys() {
    let ct = CryptTable::new();
    assert_eq!(ct.hash_string("(hash table)", 0x300), 0xC3AF3770);
    assert_eq!(ct.hash_string("(block table)", 0x300), 0xEC83B3A3);
}

#[test]
fn decrypt_then_encrypt_round_trip() {
    let ct = CryptTable::new();
    let original: Vec<u8> = (0u32..64).map(|i| (i * 7 + 3) as u8).collect();
    let mut work = original.clone();
    ct.decrypt(&mut work, 0xDEADBEEF);
    assert_ne!(work, original);
    ct.encrypt(&mut work, 0xDEADBEEF);
    assert_eq!(work, original);
}

#[test]
fn encrypt_then_decrypt_round_trip() {
    let ct = CryptTable::new();
    let original: Vec<u8> = b"sixteen byte msg".to_vec();
    let mut work = original.clone();
    ct.encrypt(&mut work, 42);
    ct.decrypt(&mut work, 42);
    assert_eq!(work, original);
}

#[test]
fn decrypt_leaves_trailing_bytes() {
    let ct = CryptTable::new();
    let mut work: Vec<u8> = vec![1, 2, 3, 4, 5, 6];
    ct.decrypt(&mut work, 7);
    // The last two bytes do not fill a word and stay as they were.
    assert_eq!(&work[4..], &[5, 6]);
}

#[test]
fn decompress_zlib_unit() {
    let content: Vec<u8> = (0u32..200).map(|i| (i % 7) as u8).collect();
    let mut enc = flate2::write::ZlibEncoder::new(Vec::new(), flate2::Compression::default());
    enc.write_all(&content).unwrap();
    let mut unit = vec![0x02u8];
    unit.extend_from_slice(&enc.finish().unwrap());

    let mut out = vec![0u8; 200];
    let n = mpq::compression::decompress(&unit, &mut out).unwrap();
    assert_eq!(n, 200);
    assert_eq!(out, content);
}

#[test]
fn decompress_unknown_method_is_unsupported() {
    let unit = vec![0x10u8, 1, 2, 3];
    let mut out = vec![0u8; 16];
    assert_eq!(
        mpq::compression::decompress(&unit, &mut out),
        Err(mpq::MpqError::Unsupported)
    );
}

#[test]
fn decompress_lzma_value_is_unsupported() {
    // 0x12 is the LZMA value: it contains the zlib bit but is not zlib.
    let unit = vec![0x12u8, 1, 2, 3];
    let mut out = vec![0u8; 16];
    assert_eq!(
        mpq::compression::decompress(&unit, &mut out),
        Err(mpq::MpqError::Unsupported)
    );
}

#[test]
fn decompress_empty_unit_is_invalid() {
    let mut out = vec![0u8; 16];
    assert_eq!(
        mpq::compression::decompress(&[], &mut out),
        Err(mpq::MpqError::InvalidData)
    );
}

#[test]
fn decompress_corrupt_zlib_is_invalid() {
    let unit = vec![0x02u8, 0xFF, 0xFF, 0xFF, 0xFF];
    let mut out = vec![0u8; 16];
    assert_eq!(
        mpq::compression::decompress(&unit, &mut out),
        Err(mpq::MpqError::InvalidData)
    );
}
