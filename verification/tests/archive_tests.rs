use std::io::Write;
use mpq::crypt::CryptTable;
use mpq::{Archive, MpqError};

const FILE_COMPRESS: u32 = 0x00000200;
const FILE_ENCRYPTED: u32 = 0x00010000;
const FILE_FIX_KEY: u32 = 0x00020000;
const FILE_PATCH_FILE: u32 = 0x00100000;
const FILE_SINGLE_UNIT: u32 = 0x01000000;
const FILE_SECTOR_CRC: u32 = 0x04000000;

struct FileEntry {
    name: &'static str,
    stored: Vec<u8>,
    unpacked: u32,
    flags: u32,
    forced_offset: Option<u32>,
}

fn put(buf: &mut Vec<u8>, off: usize, bytes: &[u8]) {
    if buf.len() < off + bytes.len() {
        buf.resize(off + bytes.len(), 0);
    }
    buf[off..off + bytes.len()].copy_from_slice(bytes);
}

/// Lay out a small archive at `base`: header, file data, then the encrypted
/// hash and block directories. `prefill` pins raw 16-byte hash entries into
/// chosen slots before the files are inserted by linear probing.
fn build_archive_at(
    files: &[FileEntry],
    hash_count: u32,
    shift: u16,
    base: usize,
    prefill: &[(u32, [u8; 16])],
) -> Vec<u8> {
    let ct = CryptTable::new();
    let mut data: Vec<u8> = vec![0; base];

    // header placeholder
    put(&mut data, base, &[0u8; 44]);

    // file payloads
    let mut blocks: Vec<(u32, u32, u32, u32)> = Vec::new();
    let mut cur: u32 = 44;
    for f in files {
        let off = f.forced_offset.unwrap_or(cur);
        put(&mut data, base + off as usize, &f.stored);
        if off + f.stored.len() as u32 > cur {
            cur = off + f.stored.len() as u32;
        }
        blocks.push((off, f.stored.len() as u32, f.unpacked, f.flags));
    }

    // hash table: all slots empty, then prefills, then the files
    let hc = hash_count as usize;
    let mut htab: Vec<u8> = vec![0xFF; hc * 16];
    for (slot, entry) in prefill {
        let s = *slot as usize * 16;
        htab[s..s + 16].copy_from_slice(entry);
    }
    for (idx, f) in files.iter().enumerate() {
        let mut slot = (ct.hash_string(f.name, 0x000) & (hash_count - 1)) as usize;
        while htab[slot * 16 + 12..slot * 16 + 16] != [0xFF, 0xFF, 0xFF, 0xFF] {
            slot = (slot + 1) % hc;
        }
        let mut entry = Vec::new();
        entry.extend_from_slice(&ct.hash_string(f.name, 0x100).to_le_bytes());
        entry.extend_from_slice(&ct.hash_string(f.name, 0x200).to_le_bytes());
        entry.extend_from_slice(&0u16.to_le_bytes());
        entry.extend_from_slice(&0u16.to_le_bytes());
        entry.extend_from_slice(&(idx as u32).to_le_bytes());
        htab[slot * 16..slot * 16 + 16].copy_from_slice(&entry);
    }
    ct.encrypt(&mut htab, ct.hash_string("(hash table)", 0x300));
    let hoff = cur;
    put(&mut data, base + hoff as usize, &htab);

    // block table
    let mut btab: Vec<u8> = Vec::new();
    for (off, packed, unpacked, flags) in &blocks {
        btab.extend_from_slice(&off.to_le_bytes());
        btab.extend_from_slice(&packed.to_le_bytes());
        btab.extend_from_slice(&unpacked.to_le_bytes());
        btab.extend_from_slice(&flags.to_le_bytes());
    }
    ct.encrypt(&mut btab, ct.hash_string("(block table)", 0x300));
    let boff = hoff + htab.len() as u32;
    put(&mut data, base + boff as usize, &btab);

    // header
    let archive_size = (data.len() - base) as u32;
    let mut header = Vec::new();
    header.extend_from_slice(b"MPQ\x1A");
    header.extend_from_slice(&0x20u32.to_le_bytes());
    header.extend_from_slice(&archive_size.to_le_bytes());
    header.extend_from_slice(&0u16.to_le_bytes());
    header.extend_from_slice(&shift.to_le_bytes());
    header.extend_from_slice(&hoff.to_le_bytes());
    header.extend_from_slice(&boff.to_le_bytes());
    header.extend_from_slice(&hash_count.to_le_bytes());
    header.extend_from_slice(&(blocks.len() as u32).to_le_bytes());
    put(&mut data, base, &header);
    data
}

fn build_archive(files: Vec<FileEntry>, hash_count: u32, shift: u16) -> Vec<u8> {
    build_archive_at(&files, hash_count, shift, 0, &[])
}

fn plain_file(name: &'static str, content: &[u8]) -> FileEntry {
    FileEntry {
        name,
        stored: content.to_vec(),
        unpacked: content.len() as u32,
        flags: 0,
        forced_offset: None,
    }
}

fn zlib(content: &[u8]) -> Vec<u8> {
    let mut enc = flate2::write::ZlibEncoder::new(Vec::new(), flate2::Compression::default());
    enc.write_all(content).unwrap();
    let mut unit = vec![0x02u8];
    unit.extend_from_slice(&enc.finish().unwrap());
    unit
}

/// A zlib-compressed sectored payload: the sector-offset index, then one
/// compressed unit per sector. With checksums, the index carries one more
/// terminating word and the Adler-32 words follow the sectors.
fn sectored_zlib(content: &[u8], sector_size: usize, with_crc: bool) -> Vec<u8> {
    let num = content.len().div_ceil(sector_size);
    let table_words = if with_crc { num + 2 } else { num + 1 };
    let mut units: Vec<Vec<u8>> = Vec::new();
    for s in 0..num {
        let end = ((s + 1) * sector_size).min(content.len());
        units.push(zlib(&content[s * sector_size..end]));
    }
    let mut offsets: Vec<u32> = Vec::new();
    let mut cur = (table_words * 4) as u32;
    for u in &units {
        offsets.push(cur);
        cur += u.len() as u32;
    }
    offsets.push(cur);
    let crc_end = cur + (num as u32) * 4;
    if with_crc {
        offsets.push(crc_end);
    }
    let mut stored = Vec::new();
    for o in &offsets {
        stored.extend_from_slice(&o.to_le_bytes());
    }
    for u in &units {
        stored.extend_from_slice(u);
    }
    if with_crc {
        for u in &units {
            let mut a = adler32::RollingAdler32::from_value(0);
            a.update_buffer(u);
            stored.extend_from_slice(&a.hash().to_le_bytes());
        }
    }
    stored
}

#[test]
fn open_rejects_missing_magic() {
    let data = vec![0u8; 0x1000];
    assert!(matches!(Archive::open(data), Err(MpqError::UnexpectedEof)));
}

#[test]
fn open_rejects_short_buffer() {
    let data = vec![0u8; 16];
    assert!(matches!(Archive::open(data), Err(MpqError::UnexpectedEof)));
}

#[test]
fn open_finds_header_past_leading_junk() {
    let content = b"payload".to_vec();
    let archive = build_archive_at(
        &[plain_file("a.txt", &content)],
        4,
        3,
        0x400,
        &[],
    );
    let a = Archive::open(archive).unwrap();
    let f = a.open_file("a.txt").unwrap();
    assert_eq!(f.size(), 7);
}

#[test]
fn open_rejects_user_data_header_without_archive() {
    let mut data = vec![0u8; 0x400];
    put(&mut data, 0, b"MPQ\x1B");
    put(&mut data, 4, &16u32.to_le_bytes());
    put(&mut data, 8, &0x200u32.to_le_bytes());
    put(&mut data, 12, &16u32.to_le_bytes());
    assert!(matches!(Archive::open(data), Err(MpqError::InvalidData)));
}

#[test]
fn user_data_prelude_locates_archive() {
    let content = b"hello".to_vec();
    let mut data = build_archive_at(&[plain_file("a.txt", &content)], 4, 3, 0x200, &[]);
    put(&mut data, 0, b"MPQ\x1B");
    put(&mut data, 4, &32u32.to_le_bytes());
    put(&mut data, 8, &0x200u32.to_le_bytes());
    put(&mut data, 12, &16u32.to_le_bytes());
    put(&mut data, 16, b"0123456789abcdefFEDCBA9876543210");

    let a = Archive::open(data).unwrap();
    let user = a.read_user_data().unwrap().unwrap();
    assert_eq!(user, b"0123456789abcdefFEDCBA9876543210".to_vec());

    let f = a.open_file("a.txt").unwrap();
    let mut buf = vec![0u8; f.size() as usize];
    assert_eq!(f.read(&a, &mut buf).unwrap(), 5);
    assert_eq!(buf, content);
}

#[test]
fn read_user_data_absent() {
    let archive = build_archive(vec![plain_file("a.txt", b"x")], 4, 3);
    let a = Archive::open(archive).unwrap();
    assert!(a.read_user_data().unwrap().is_none());
}

#[test]
fn open_file_not_found() {
    let archive = build_archive(vec![plain_file("a.txt", b"x")], 4, 3);
    let a = Archive::open(archive).unwrap();
    assert!(matches!(a.open_file("missing.txt"), Err(MpqError::NotFound)));
}

#[test]
fn read_plain_sectored_file() {
    let content: Vec<u8> = (0u32..1000).map(|i| (i % 251) as u8).collect();
    let archive = build_archive(vec![plain_file("a.txt", &content)], 4, 3);
    let a = Archive::open(archive).unwrap();
    let f = a.open_file("a.txt").unwrap();
    assert_eq!(f.size(), 1000);
    let mut buf = vec![0u8; 1000];
    assert_eq!(f.read(&a, &mut buf).unwrap(), 1000);
    assert_eq!(buf, content);
}

#[test]
fn probe_skips_deleted_entry_with_matching_hashes() {
    let ct = CryptTable::new();
    // A deleted slot at the name's own position, carrying the name's own
    // check hashes: a conforming probe must pass it by.
    let mut deleted = [0u8; 16];
    deleted[0..4].copy_from_slice(&ct.hash_string("a.txt", 0x100).to_le_bytes());
    deleted[4..8].copy_from_slice(&ct.hash_string("a.txt", 0x200).to_le_bytes());
    deleted[12..16].copy_from_slice(&0xFFFFFFFEu32.to_le_bytes());
    let slot = ct.hash_string("a.txt", 0x000) & 3;
    let archive = build_archive_at(
        &[plain_file("a.txt", b"found me")],
        4,
        3,
        0,
        &[(slot, deleted)],
    );
    let a = Archive::open(archive).unwrap();
    let f = a.open_file("a.txt").unwrap();
    let mut buf = vec![0u8; f.size() as usize];
    f.read(&a, &mut buf).unwrap();
    assert_eq!(buf, b"found me".to_vec());
}

#[test]
fn probe_wraps_around_table_end() {
    let ct = CryptTable::new();
    // "test.txt" hashes to the last slot of a 4-slot table; a deleted entry
    // there pushes the live entry around the wrap to slot 0.
    assert_eq!(ct.hash_string("test.txt", 0x000) & 3, 3);
    let mut deleted = [0xFFu8; 16];
    deleted[12..16].copy_from_slice(&0xFFFFFFFEu32.to_le_bytes());
    let archive = build_archive_at(
        &[plain_file("test.txt", b"wrapped")],
        4,
        3,
        0,
        &[(3, deleted)],
    );
    let a = Archive::open(archive).unwrap();
    let f = a.open_file("test.txt").unwrap();
    let mut buf = vec![0u8; f.size() as usize];
    f.read(&a, &mut buf).unwrap();
    assert_eq!(buf, b"wrapped".to_vec());
}

#[test]
fn read_zlib_sectored_file() {
    let content: Vec<u8> = (0u32..10_000).map(|i| ((i / 100) % 256) as u8).collect();
    let stored = sectored_zlib(&content, 4096, false);
    let archive = build_archive(
        vec![FileEntry {
            name: "big.dat",
            stored,
            unpacked: 10_000,
            flags: FILE_COMPRESS,
            forced_offset: None,
        }],
        8,
        3,
    );
    let a = Archive::open(archive).unwrap();
    let f = a.open_file("big.dat").unwrap();
    assert_eq!(f.size(), 10_000);
    let mut buf = vec![0u8; 10_000];
    assert_eq!(f.read(&a, &mut buf).unwrap(), 10_000);
    assert_eq!(buf, content);
}

#[test]
fn read_zlib_sectored_with_checksums() {
    let content: Vec<u8> = (0u32..9000).map(|i| ((i * 31) % 256) as u8).collect();
    let stored = sectored_zlib(&content, 4096, true);
    let archive = build_archive(
        vec![FileEntry {
            name: "crc.dat",
            stored,
            unpacked: 9000,
            flags: FILE_COMPRESS | FILE_SECTOR_CRC,
            forced_offset: None,
        }],
        8,
        3,
    );
    let a = Archive::open(archive).unwrap();
    let f = a.open_file("crc.dat").unwrap();
    let mut buf = vec![0u8; 9000];
    assert_eq!(f.read(&a, &mut buf).unwrap(), 9000);
    assert_eq!(buf, content);
}

#[test]
fn checksum_mismatch_is_detected() {
    let content: Vec<u8> = (0u32..9000).map(|i| ((i * 31) % 256) as u8).collect();
    let mut stored = sectored_zlib(&content, 4096, true);
    // corrupt the first checksum word (it trails the sector data)
    let crc_pos = stored.len() - 3 * 4;
    stored[crc_pos] ^= 0x5A;
    let archive = build_archive(
        vec![FileEntry {
            name: "crc.dat",
            stored,
            unpacked: 9000,
            flags: FILE_COMPRESS | FILE_SECTOR_CRC,
            forced_offset: None,
        }],
        8,
        3,
    );
    let a = Archive::open(archive).unwrap();
    let f = a.open_file("crc.dat").unwrap();
    let mut buf = vec![0u8; 9000];
    assert_eq!(f.read(&a, &mut buf), Err(MpqError::ChecksumError));
}

#[test]
fn zero_checksum_is_not_verified() {
    let content: Vec<u8> = (0u32..100).map(|i| (i % 11) as u8).collect();
    let mut stored = sectored_zlib(&content, 4096, true);
    // zero out the only checksum word: verification is disarmed
    let crc_pos = stored.len() - 4;
    stored[crc_pos..].copy_from_slice(&0u32.to_le_bytes());
    let archive = build_archive(
        vec![FileEntry {
            name: "crc.dat",
            stored,
            unpacked: 100,
            flags: FILE_COMPRESS | FILE_SECTOR_CRC,
            forced_offset: None,
        }],
        8,
        3,
    );
    let a = Archive::open(archive).unwrap();
    let f = a.open_file("crc.dat").unwrap();
    let mut buf = vec![0u8; 100];
    assert_eq!(f.read(&a, &mut buf).unwrap(), 100);
    assert_eq!(buf, content);
}

#[test]
fn read_single_unit_zlib() {
    let content: Vec<u8> = (0u32..3000).map(|i| ((i / 10) % 256) as u8).collect();
    let stored = zlib(&content);
    let archive = build_archive(
        vec![FileEntry {
            name: "one.dat",
            stored,
            unpacked: 3000,
            flags: FILE_COMPRESS | FILE_SINGLE_UNIT,
            forced_offset: None,
        }],
        4,
        3,
    );
    let a = Archive::open(archive).unwrap();
    let f = a.open_file("one.dat").unwrap();
    let mut buf = vec![0u8; 3000];
    assert_eq!(f.read(&a, &mut buf).unwrap(), 3000);
    assert_eq!(buf, content);
}

#[test]
fn read_single_unit_verbatim() {
    let content = b"stored as-is".to_vec();
    let archive = build_archive(
        vec![FileEntry {
            name: "raw.dat",
            stored: content.clone(),
            unpacked: content.len() as u32,
            flags: FILE_SINGLE_UNIT,
            forced_offset: None,
        }],
        4,
        3,
    );
    let a = Archive::open(archive).unwrap();
    let f = a.open_file("raw.dat").unwrap();
    let mut buf = vec![0u8; content.len()];
    assert_eq!(f.read(&a, &mut buf).unwrap(), content.len());
    assert_eq!(buf, content);
}

#[test]
fn read_encrypted_single_unit_with_fix_key() {
    let ct = CryptTable::new();
    let content: Vec<u8> = (0u32..100).map(|i| (i * 3 % 256) as u8).collect();
    let key = ct
        .hash_string("unit.dat", 0x300)
        .wrapping_add(0x4000)
        ^ 100;
    let mut stored = content.clone();
    ct.encrypt(&mut stored, key);
    let archive = build_archive(
        vec![FileEntry {
            name: "units\\unit.dat",
            stored,
            unpacked: 100,
            flags: FILE_SINGLE_UNIT | FILE_ENCRYPTED | FILE_FIX_KEY,
            forced_offset: Some(0x4000),
        }],
        4,
        3,
    );
    let a = Archive::open(archive).unwrap();
    let f = a.open_file("units\\unit.dat").unwrap();
    let mut buf = vec![0u8; 100];
    assert_eq!(f.read(&a, &mut buf).unwrap(), 100);
    assert_eq!(buf, content);
}

#[test]
fn read_encrypted_zlib_sectored_file() {
    let ct = CryptTable::new();
    let content: Vec<u8> = (0u32..6000).map(|i| ((i * 13) % 256) as u8).collect();
    let mut stored = sectored_zlib(&content, 4096, false);
    let key = ct.hash_string("enc.dat", 0x300);
    // encrypt the sector index with key - 1 and each sector with key + i
    let num = 2;
    let table_len = (num + 1) * 4;
    let mut offsets_raw: Vec<u32> = Vec::new();
    for s in 0..num + 1 {
        offsets_raw.push(u32::from_le_bytes(
            stored[s * 4..s * 4 + 4].try_into().unwrap(),
        ));
    }
    let mut table = stored[..table_len].to_vec();
    ct.encrypt(&mut table, key.wrapping_sub(1));
    stored[..table_len].copy_from_slice(&table);
    for s in 0..num {
        let (lo, hi) = (offsets_raw[s] as usize, offsets_raw[s + 1] as usize);
        let mut sec = stored[lo..hi].to_vec();
        ct.encrypt(&mut sec, key.wrapping_add(s as u32));
        stored[lo..hi].copy_from_slice(&sec);
    }
    let archive = build_archive(
        vec![FileEntry {
            name: "enc.dat",
            stored,
            unpacked: 6000,
            flags: FILE_COMPRESS | FILE_ENCRYPTED,
            forced_offset: None,
        }],
        4,
        3,
    );
    let a = Archive::open(archive).unwrap();
    let f = a.open_file("enc.dat").unwrap();
    let mut buf = vec![0u8; 6000];
    assert_eq!(f.read(&a, &mut buf).unwrap(), 6000);
    assert_eq!(buf, content);
}

#[test]
fn patch_file_is_unsupported() {
    let archive = build_archive(
        vec![FileEntry {
            name: "p.dat",
            stored: b"xxxx".to_vec(),
            unpacked: 4,
            flags: FILE_PATCH_FILE | FILE_SINGLE_UNIT,
            forced_offset: None,
        }],
        4,
        3,
    );
    let a = Archive::open(archive).unwrap();
    let f = a.open_file("p.dat").unwrap();
    let mut buf = vec![0u8; 4];
    assert_eq!(f.read(&a, &mut buf), Err(MpqError::Unsupported));
}

#[test]
fn unknown_sector_codec_is_unsupported() {
    // one sector whose unit names the bzip2 method
    let mut unit = vec![0x10u8];
    unit.extend_from_slice(&[1, 2, 3]);
    let mut stored = Vec::new();
    stored.extend_from_slice(&8u32.to_le_bytes());
    stored.extend_from_slice(&(8 + unit.len() as u32).to_le_bytes());
    stored.extend_from_slice(&unit);
    let archive = build_archive(
        vec![FileEntry {
            name: "bz.dat",
            stored,
            unpacked: 100,
            flags: FILE_COMPRESS,
            forced_offset: None,
        }],
        4,
        3,
    );
    let a = Archive::open(archive).unwrap();
    let f = a.open_file("bz.dat").unwrap();
    let mut buf = vec![0u8; 100];
    assert_eq!(f.read(&a, &mut buf), Err(MpqError::Unsupported));
}

#[test]
fn read_empty_file() {
    let archive = build_archive(vec![plain_file("empty.txt", b"")], 4, 3);
    let a = Archive::open(archive).unwrap();
    let f = a.open_file("empty.txt").unwrap();
    assert_eq!(f.size(), 0);
    let mut buf = vec![0u8; 0];
    assert_eq!(f.read(&a, &mut buf).unwrap(), 0);
}

#[test]
fn open_rejects_zero_hash_table() {
    let mut data = build_archive(vec![plain_file("a.txt", b"x")], 4, 3);
    // force the hash-table count to zero
    put(&mut data, 0x18, &0u32.to_le_bytes());
    assert_eq!(Archive::open(data).err(), Some(MpqError::InvalidData));
}

#[test]
fn open_rejects_oversized_sector_shift() {
    let mut data = build_archive(vec![plain_file("a.txt", b"x")], 4, 3);
    put(&mut data, 0x0E, &23u16.to_le_bytes());
    assert_eq!(Archive::open(data).err(), Some(MpqError::InvalidData));
}

#[test]
fn open_rejects_truncated_directory() {
    let mut data = build_archive(vec![plain_file("a.txt", b"x")], 4, 3);
    // point the hash table past the end of the buffer
    put(&mut data, 0x10, &0xFFFF_0000u32.to_le_bytes());
    assert_eq!(Archive::open(data).err(), Some(MpqError::UnexpectedEof));
}

#[test]
fn open_file_rejects_block_index_past_table() {
    let ct = CryptTable::new();
    let mut entry = [0u8; 16];
    entry[0..4].copy_from_slice(&ct.hash_string("ghost.dat", 0x100).to_le_bytes());
    entry[4..8].copy_from_slice(&ct.hash_string("ghost.dat", 0x200).to_le_bytes());
    entry[12..16].copy_from_slice(&7u32.to_le_bytes());
    let slot = ct.hash_string("ghost.dat", 0x000) & 3;
    let archive = build_archive_at(&[plain_file("a.txt", b"x")], 4, 3, 0, &[(slot, entry)]);
    let a = Archive::open(archive).unwrap();
    assert_eq!(a.open_file("ghost.dat").err(), Some(MpqError::InvalidData));
}

#[test]
fn read_rejects_data_past_archive_end() {
    // An uncompressed sectored read copies one span of the buffer's length;
    // a buffer longer than the archive reaches past its end.
    let archive = build_archive(vec![plain_file("a.txt", b"abc")], 4, 3);
    let a = Archive::open(archive).unwrap();
    let f = a.open_file("a.txt").unwrap();
    let mut buf = vec![0u8; 100_000];
    assert_eq!(f.read(&a, &mut buf), Err(MpqError::UnexpectedEof));
}

#[test]
fn header_parses_fields() {
    let mut src = Vec::new();
    src.extend_from_slice(b"MPQ\x1A");
    src.extend_from_slice(&0x2Cu32.to_le_bytes()); // header size
    src.extend_from_slice(&0x12345678u32.to_le_bytes()); // archive size
    src.extend_from_slice(&1u16.to_le_bytes()); // format version
    src.extend_from_slice(&5u16.to_le_bytes()); // sector shift
    src.extend_from_slice(&0x100u32.to_le_bytes()); // hash table offset
    src.extend_from_slice(&0x200u32.to_le_bytes()); // block table offset
    src.extend_from_slice(&16u32.to_le_bytes()); // hash count
    src.extend_from_slice(&4u32.to_le_bytes()); // block count
    src.extend_from_slice(&0xAABBCCDD11223344u64.to_le_bytes()); // extended offset
    src.extend_from_slice(&0x1111u16.to_le_bytes()); // hash offset high
    src.extend_from_slice(&0x2222u16.to_le_bytes()); // block offset high

    let h = mpq::archive::Header::new(&src);
    assert_eq!(h.header_size, 0x2C);
    assert_eq!(h.archive_size, 0x12345678);
    assert_eq!(h.format_version, 1);
    assert_eq!(h.sector_size_shift, 5);
    assert_eq!(h.hash_table_offset, 0x100);
    assert_eq!(h.block_table_offset, 0x200);
    assert_eq!(h.hash_table_count, 16);
    assert_eq!(h.block_table_count, 4);
    assert_eq!(h.extended_offset, 0xAABBCCDD11223344);
    assert_eq!(h.hash_table_offset_high, 0x1111);
    assert_eq!(h.block_table_offset_high, 0x2222);

    // under format version 0 the extended fields are not read
    src[0x0C..0x0E].copy_from_slice(&0u16.to_le_bytes());
    let h0 = mpq::archive::Header::new(&src);
    assert_eq!(h0.extended_offset, 0);
    assert_eq!(h0.hash_table_offset_high, 0);
    assert_eq!(h0.block_table_offset_high, 0);
}

#[test]
fn hash_and_block_entries_parse_fields() {
    let mut src = Vec::new();
    src.extend_from_slice(&0xDEADBEEFu32.to_le_bytes());
    src.extend_from_slice(&0xCAFEBABEu32.to_le_bytes());
    src.extend_from_slice(&0x0409u16.to_le_bytes());
    src.extend_from_slice(&0x0001u16.to_le_bytes());
    src.extend_from_slice(&7u32.to_le_bytes());
    let h = mpq::archive::Hash::new(&src);
    assert_eq!(h.hash_a, 0xDEADBEEF);
    assert_eq!(h.hash_b, 0xCAFEBABE);
    assert_eq!(h.locale, 0x0409);
    assert_eq!(h.platform, 1);
    assert_eq!(h.block_index, 7);

    let b = mpq::archive::Block::new(&src);
    assert_eq!(b.offset, 0xDEADBEEF);
    assert_eq!(b.packed_size, 0xCAFEBABE);
    assert_eq!(b.unpacked_size, 0x00010409);
    assert_eq!(b.flags, 7);
}

#[test]
fn user_data_header_parses_fields() {
    let mut src = Vec::new();
    src.extend_from_slice(b"MPQ\x1B");
    src.extend_from_slice(&64u32.to_le_bytes());
    src.extend_from_slice(&0x200u32.to_le_bytes());
    src.extend_from_slice(&16u32.to_le_bytes());
    let u = mpq::archive::UserDataHeader::new(&src);
    assert_eq!(u.user_data_size, 64);
    assert_eq!(u.header_offset, 0x200);
    assert_eq!(u.user_data_header_size, 16);
}

#[test]
fn read_user_data_rejects_oversized_declaration() {
    let content = b"hi".to_vec();
    let mut data = build_archive_at(&[plain_file("a.txt", &content)], 4, 3, 0x200, &[]);
    put(&mut data, 0, b"MPQ\x1B");
    put(&mut data, 4, &0xFFFF0000u32.to_le_bytes()); // size past the buffer
    put(&mut data, 8, &0x200u32.to_le_bytes());
    put(&mut data, 12, &16u32.to_le_bytes());
    let a = Archive::open(data).unwrap();
    assert_eq!(a.read_user_data(), Err(MpqError::UnexpectedEof));
}
