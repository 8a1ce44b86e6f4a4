//! The archive reader: header discovery inside a byte buffer, decryption of
//! the hash and block directories, name resolution through the hash table,
//! and the sectored file reader.
//!
//! An [`Archive`] owns the raw bytes of an MPQ file. All offsets stored in
//! the format are relative to the archive base: the position of the
//! `"MPQ\x1A"` magic inside the buffer.

use vstd::prelude::*;

verus! {

use vstd::bytes::{
    spec_u16_from_le_bytes, spec_u32_from_le_bytes, spec_u64_from_le_bytes, u16_from_le_bytes,
    u32_from_le_bytes, u64_from_le_bytes,
};
use vstd::slice::{slice_subrange, slice_to_vec};
use vstd::string::StringSliceAdditionalSpecFns;
use crate::compression::{decompress_into, spec_decompress_unit};
use crate::crypt::{spec_decrypt, spec_hash_string, CryptTable};
use crate::MpqError;

/// The whole block is one PKWARE-imploded unit.
pub const FILE_IMPLODE: u32 = 0x00000100;
/// Multi-codec compression; each compressed unit starts with a method mask.
pub const FILE_COMPRESS: u32 = 0x00000200;
/// The file data is encrypted with the file key.
pub const FILE_ENCRYPTED: u32 = 0x00010000;
/// The file key is adjusted by the block offset and the unpacked size.
pub const FILE_FIX_KEY: u32 = 0x00020000;
/// The data is a patch descriptor; reading one is not supported.
pub const FILE_PATCH_FILE: u32 = 0x00100000;
/// The file is one contiguous unit without a sector index.
pub const FILE_SINGLE_UNIT: u32 = 0x01000000;
/// Per-sector Adler-32 checksums follow the sector index.
pub const FILE_SECTOR_CRC: u32 = 0x04000000;
/// Any of the compression method bits.
pub const FILE_COMPRESS_MASK: u32 = 0x0000FF00;

/// Hash-table slot that was never used; probing stops here.
pub const BLOCK_INDEX_EMPTY: u32 = 0xFFFFFFFF;
/// Hash-table slot whose file was deleted; probing continues past it.
pub const BLOCK_INDEX_DELETED: u32 = 0xFFFFFFFE;

/// The archive header, 44 bytes on disk after the `"MPQ\x1A"` magic. The
/// extended fields exist only in format version 1 and are read but never
/// composed into seek addresses.
#[derive(Clone, Copy)]
pub struct Header {
    pub header_size: u32,
    pub archive_size: u32,
    /// 0 = original, 1 = extended.
    pub format_version: u16,
    /// Sector bytes = 512 << shift.
    pub sector_size_shift: u16,
    pub hash_table_offset: u32,
    pub block_table_offset: u32,
    pub hash_table_count: u32,
    pub block_table_count: u32,
    pub extended_offset: u64,
    pub hash_table_offset_high: u16,
    pub block_table_offset_high: u16,
}

/// The header parsed from its 44 on-disk bytes (the magic has already been
/// matched by the locator and is not kept).
pub open spec fn spec_header(src: Seq<u8>) -> Header {
    let version = spec_u16_from_le_bytes(src.subrange(0x0C, 0x0E));
    Header {
        header_size: spec_u32_from_le_bytes(src.subrange(0x04, 0x08)),
        archive_size: spec_u32_from_le_bytes(src.subrange(0x08, 0x0C)),
        format_version: version,
        sector_size_shift: spec_u16_from_le_bytes(src.subrange(0x0E, 0x10)),
        hash_table_offset: spec_u32_from_le_bytes(src.subrange(0x10, 0x14)),
        block_table_offset: spec_u32_from_le_bytes(src.subrange(0x14, 0x18)),
        hash_table_count: spec_u32_from_le_bytes(src.subrange(0x18, 0x1C)),
        block_table_count: spec_u32_from_le_bytes(src.subrange(0x1C, 0x20)),
        extended_offset: if version >= 1 {
            spec_u64_from_le_bytes(src.subrange(0x20, 0x28))
        } else {
            0
        },
        hash_table_offset_high: if version >= 1 {
            spec_u16_from_le_bytes(src.subrange(0x28, 0x2A))
        } else {
            0
        },
        block_table_offset_high: if version >= 1 {
            spec_u16_from_le_bytes(src.subrange(0x2A, 0x2C))
        } else {
            0
        },
    }
}

impl Header {
    /// Parse a header from the 44 bytes at the archive base.
    pub fn new(src: &[u8]) -> (r: Header)
        requires
            src@.len() >= 44,
        ensures
            r == spec_header(src@),
    {
        let version = u16_from_le_bytes(slice_subrange(src, 0x0C, 0x0E));
        Header {
            header_size: u32_from_le_bytes(slice_subrange(src, 0x04, 0x08)),
            archive_size: u32_from_le_bytes(slice_subrange(src, 0x08, 0x0C)),
            format_version: version,
            sector_size_shift: u16_from_le_bytes(slice_subrange(src, 0x0E, 0x10)),
            hash_table_offset: u32_from_le_bytes(slice_subrange(src, 0x10, 0x14)),
            block_table_offset: u32_from_le_bytes(slice_subrange(src, 0x14, 0x18)),
            hash_table_count: u32_from_le_bytes(slice_subrange(src, 0x18, 0x1C)),
            block_table_count: u32_from_le_bytes(slice_subrange(src, 0x1C, 0x20)),
            extended_offset: if version >= 1 {
                u64_from_le_bytes(slice_subrange(src, 0x20, 0x28))
            } else {
                0
            },
            hash_table_offset_high: if version >= 1 {
                u16_from_le_bytes(slice_subrange(src, 0x28, 0x2A))
            } else {
                0
            },
            block_table_offset_high: if version >= 1 {
                u16_from_le_bytes(slice_subrange(src, 0x2A, 0x2C))
            } else {
                0
            },
        }
    }
}

/// The optional 16-byte prelude before the archive header (the magic is
/// matched by the locator and not kept).
#[derive(Clone, Copy)]
pub struct UserDataHeader {
    pub user_data_size: u32,
    /// Position of the archive header, relative to this prelude's start.
    pub header_offset: u32,
    pub user_data_header_size: u32,
}

/// The user-data header parsed from its 16 on-disk bytes.
pub open spec fn spec_user_data_header(src: Seq<u8>) -> UserDataHeader {
    UserDataHeader {
        user_data_size: spec_u32_from_le_bytes(src.subrange(0x04, 0x08)),
        header_offset: spec_u32_from_le_bytes(src.subrange(0x08, 0x0C)),
        user_data_header_size: spec_u32_from_le_bytes(src.subrange(0x0C, 0x10)),
    }
}

impl UserDataHeader {
    /// Parse a user-data header from its 16 on-disk bytes.
    pub fn new(src: &[u8]) -> (r: UserDataHeader)
        requires
            src@.len() >= 16,
        ensures
            r == spec_user_data_header(src@),
    {
        UserDataHeader {
            user_data_size: u32_from_le_bytes(slice_subrange(src, 0x04, 0x08)),
            header_offset: u32_from_le_bytes(slice_subrange(src, 0x08, 0x0C)),
            user_data_header_size: u32_from_le_bytes(slice_subrange(src, 0x0C, 0x10)),
        }
    }
}

/// A hash-table entry, 16 bytes on disk.
#[derive(Clone, Copy)]
pub struct Hash {
    /// File name hash, first check half.
    pub hash_a: u32,
    /// File name hash, second check half.
    pub hash_b: u32,
    /// Language of the file, a windows LANGID.
    pub locale: u16,
    /// Platform the file is used for.
    pub platform: u16,
    /// Index into the block table, or one of the two sentinels.
    pub block_index: u32,
}

/// A hash entry parsed from its 16 on-disk bytes.
pub open spec fn spec_hash_entry(src: Seq<u8>) -> Hash {
    Hash {
        hash_a: spec_u32_from_le_bytes(src.subrange(0, 4)),
        hash_b: spec_u32_from_le_bytes(src.subrange(4, 8)),
        locale: spec_u16_from_le_bytes(src.subrange(8, 10)),
        platform: spec_u16_from_le_bytes(src.subrange(10, 12)),
        block_index: spec_u32_from_le_bytes(src.subrange(12, 16)),
    }
}

impl Hash {
    /// Parse a hash entry from its 16 on-disk bytes.
    pub fn new(src: &[u8]) -> (r: Hash)
        requires
            src@.len() >= 16,
        ensures
            r == spec_hash_entry(src@),
    {
        Hash {
            hash_a: u32_from_le_bytes(slice_subrange(src, 0, 4)),
            hash_b: u32_from_le_bytes(slice_subrange(src, 4, 8)),
            locale: u16_from_le_bytes(slice_subrange(src, 8, 10)),
            platform: u16_from_le_bytes(slice_subrange(src, 10, 12)),
            block_index: u32_from_le_bytes(slice_subrange(src, 12, 16)),
        }
    }
}

/// A block-table entry, 16 bytes on disk: the physical descriptor of one
/// stored file.
#[derive(Clone, Copy)]
pub struct Block {
    /// Start of the file data, relative to the archive base.
    pub offset: u32,
    /// Stored (compressed) size in bytes.
    pub packed_size: u32,
    /// Decoded size in bytes.
    pub unpacked_size: u32,
    /// Combination of the `FILE_*` capability bits.
    pub flags: u32,
}

/// A block entry parsed from its 16 on-disk bytes.
pub open spec fn spec_block_entry(src: Seq<u8>) -> Block {
    Block {
        offset: spec_u32_from_le_bytes(src.subrange(0, 4)),
        packed_size: spec_u32_from_le_bytes(src.subrange(4, 8)),
        unpacked_size: spec_u32_from_le_bytes(src.subrange(8, 12)),
        flags: spec_u32_from_le_bytes(src.subrange(12, 16)),
    }
}

impl Block {
    /// Parse a block entry from its 16 on-disk bytes.
    pub fn new(src: &[u8]) -> (r: Block)
        requires
            src@.len() >= 16,
        ensures
            r == spec_block_entry(src@),
    {
        Block {
            offset: u32_from_le_bytes(slice_subrange(src, 0, 4)),
            packed_size: u32_from_le_bytes(slice_subrange(src, 4, 8)),
            unpacked_size: u32_from_le_bytes(slice_subrange(src, 8, 12)),
            flags: u32_from_le_bytes(slice_subrange(src, 12, 16)),
        }
    }
}

/// True when the archive magic `"MPQ\x1A"` stands at `pos`.
pub open spec fn has_archive_magic(data: Seq<u8>, pos: int) -> bool {
    data[pos] == 0x4D && data[pos + 1] == 0x50 && data[pos + 2] == 0x51 && data[pos + 3] == 0x1A
}

/// True when the user-data magic `"MPQ\x1B"` stands at `pos`.
pub open spec fn has_user_magic(data: Seq<u8>, pos: int) -> bool {
    data[pos] == 0x4D && data[pos + 1] == 0x50 && data[pos + 2] == 0x51 && data[pos + 3] == 0x1B
}

/// Where the archive header lies: scan `data` from `pos` in steps of 0x200.
/// An archive magic ends the scan; a user-data magic redirects once by its
/// `header_offset` and requires the archive magic there; running past the
/// end of the buffer is a truncation error.
pub open spec fn spec_locate(data: Seq<u8>, pos: int) -> Result<(int, Option<UserDataHeader>), MpqError>
    decreases data.len() + 0x200 - pos,
{
    if pos + 44 > data.len() {
        Err(MpqError::UnexpectedEof)
    } else if has_archive_magic(data, pos) {
        Ok((pos, None))
    } else if has_user_magic(data, pos) {
        let udh = spec_user_data_header(data.subrange(pos, pos + 16));
        let base = pos + udh.header_offset;
        if base + 44 > data.len() {
            Err(MpqError::UnexpectedEof)
        } else if has_archive_magic(data, base) {
            Ok((base, Some(udh)))
        } else {
            Err(MpqError::InvalidData)
        }
    } else {
        spec_locate(data, pos + 0x200)
    }
}

/// Scan the buffer for the archive header, per [`spec_locate`].
fn locate_header(data: &Vec<u8>) -> (r: Result<(usize, Option<UserDataHeader>), MpqError>)
    ensures
        match r {
            Ok(found) => spec_locate(data@, 0) == Ok::<(int, Option<UserDataHeader>), MpqError>(
                (found.0 as int, found.1),
            ) && found.0 + 44 <= data@.len(),
            Err(e) => spec_locate(data@, 0) == Err::<(int, Option<UserDataHeader>), MpqError>(e),
        },
{
    let mut pos: usize = 0;
    loop
        invariant
            pos <= data@.len(),
            spec_locate(data@, 0) == spec_locate(data@, pos as int),
        decreases data@.len() - pos,
    {
        if data.len() < 44 || pos > data.len() - 44 {
            return Err(MpqError::UnexpectedEof);
        }
        if data[pos] == 0x4D && data[pos + 1] == 0x50 && data[pos + 2] == 0x51 {
            if data[pos + 3] == 0x1A {
                return Ok((pos, None));
            }
            if data[pos + 3] == 0x1B {
                let udh = UserDataHeader::new(slice_subrange(data.as_slice(), pos, pos + 16));
                let rem = data.len() - pos;
                if udh.header_offset as u64 + 44 > rem as u64 {
                    return Err(MpqError::UnexpectedEof);
                }
                let base = pos + udh.header_offset as usize;
                if data[base] == 0x4D && data[base + 1] == 0x50 && data[base + 2] == 0x51 && data[
                    base + 3] == 0x1A {
                    return Ok((base, Some(udh)));
                }
                return Err(MpqError::InvalidData);
            }
        }
        if data.len() - pos < 0x200 + 44 {
            assert(spec_locate(data@, pos as int) == spec_locate(data@, pos + 0x200));
            assert(spec_locate(data@, pos + 0x200) == Err::<(int, Option<UserDataHeader>), MpqError>(
                MpqError::UnexpectedEof,
            ));
            return Err(MpqError::UnexpectedEof);
        }
        pos = pos + 0x200;
    }
}

/// Copy `len` bytes that start `off` past `base` out of the buffer, or
/// report truncation.
fn read_region(data: &Vec<u8>, base: usize, off: u64, len: u64) -> (r: Result<Vec<u8>, MpqError>)
    requires
        base <= data@.len(),
    ensures
        match r {
            Ok(v) => base + off + len <= data@.len() && v@ == data@.subrange(
                base + off,
                base + off + len,
            ),
            Err(e) => e == MpqError::UnexpectedEof && base + off + len > data@.len(),
        },
{
    let avail: u64 = (data.len() - base) as u64;
    if off > avail || len > avail - off {
        return Err(MpqError::UnexpectedEof);
    }
    let start = base + off as usize;
    Ok(slice_to_vec(slice_subrange(data.as_slice(), start, start + len as usize)))
}

/// The bytes of the name `"(hash table)"`, whose file-key hash decrypts the
/// hash directory.
pub open spec fn hash_table_key_name() -> Seq<u8> {
    seq![0x28u8, 0x68, 0x61, 0x73, 0x68, 0x20, 0x74, 0x61, 0x62, 0x6C, 0x65, 0x29]
}

/// The bytes of the name `"(block table)"`, whose file-key hash decrypts the
/// block directory.
pub open spec fn block_table_key_name() -> Seq<u8> {
    seq![0x28u8, 0x62, 0x6C, 0x6F, 0x63, 0x6B, 0x20, 0x74, 0x61, 0x62, 0x6C, 0x65, 0x29]
}

fn hash_table_key(crypt: &CryptTable) -> (r: u32)
    requires
        crypt.wf(),
    ensures
        r == spec_hash_string(hash_table_key_name(), 0x300),
{
    let name: [u8; 12] = [0x28, 0x68, 0x61, 0x73, 0x68, 0x20, 0x74, 0x61, 0x62, 0x6C, 0x65, 0x29];
    assert(name@ =~= hash_table_key_name());
    crypt.hash_bytes(name.as_slice(), 0x300)
}

fn block_table_key(crypt: &CryptTable) -> (r: u32)
    requires
        crypt.wf(),
    ensures
        r == spec_hash_string(block_table_key_name(), 0x300),
{
    let name: [u8; 13] = [
        0x28,
        0x62,
        0x6C,
        0x6F,
        0x63,
        0x6B,
        0x20,
        0x74,
        0x61,
        0x62,
        0x6C,
        0x65,
        0x29,
    ];
    assert(name@ =~= block_table_key_name());
    crypt.hash_bytes(name.as_slice(), 0x300)
}

/// The hash entries parsed out of a decrypted hash-table region.
pub open spec fn spec_hash_entries(bytes: Seq<u8>, count: int) -> Seq<Hash> {
    Seq::new(count as nat, |i: int| spec_hash_entry(bytes.subrange(16 * i, 16 * i + 16)))
}

/// The block entries parsed out of a decrypted block-table region.
pub open spec fn spec_block_entries(bytes: Seq<u8>, count: int) -> Seq<Block> {
    Seq::new(count as nat, |i: int| spec_block_entry(bytes.subrange(16 * i, 16 * i + 16)))
}

/// Everything `Archive::open` determines from the raw bytes.
pub struct ArchiveModel {
    /// Position of the archive magic in the buffer.
    pub base: int,
    pub user_data_header: Option<UserDataHeader>,
    pub header: Header,
    pub hash_table: Seq<Hash>,
    pub block_table: Seq<Block>,
}

/// The result of opening a byte buffer as an archive: locate the header,
/// reject a zero-sized hash table or a sector shift the format cannot mean,
/// then decrypt and parse both directories.
#[verifier::opaque]
pub open spec fn spec_open(data: Seq<u8>) -> Result<ArchiveModel, MpqError> {
    match spec_locate(data, 0) {
        Err(e) => Err(e),
        Ok((base, udh)) => {
            let h = spec_header(data.subrange(base, base + 44));
            if h.hash_table_count == 0 || h.sector_size_shift > 22 {
                Err(MpqError::InvalidData)
            } else if base + h.hash_table_offset + 16 * h.hash_table_count > data.len() {
                Err(MpqError::UnexpectedEof)
            } else if base + h.block_table_offset + 16 * h.block_table_count > data.len() {
                Err(MpqError::UnexpectedEof)
            } else {
                Ok(ArchiveModel {
                    base,
                    user_data_header: udh,
                    header: h,
                    hash_table: spec_hash_entries(
                        spec_decrypt(
                            data.subrange(
                                base + h.hash_table_offset,
                                base + h.hash_table_offset + 16 * h.hash_table_count,
                            ),
                            spec_hash_string(hash_table_key_name(), 0x300),
                        ),
                        h.hash_table_count as int,
                    ),
                    block_table: spec_block_entries(
                        spec_decrypt(
                            data.subrange(
                                base + h.block_table_offset,
                                base + h.block_table_offset + 16 * h.block_table_count,
                            ),
                            spec_hash_string(block_table_key_name(), 0x300),
                        ),
                        h.block_table_count as int,
                    ),
                })
            }
        },
    }
}

/// An open archive: the raw bytes, the parsed header and directories, and
/// the cipher table. Immutable after construction.
pub struct Archive {
    data: Vec<u8>,
    crypt: CryptTable,
    header: Header,
    user_data_header: Option<UserDataHeader>,
    hash_table: Vec<Hash>,
    block_table: Vec<Block>,
    sector_size: u32,
    offset: u64,
}

impl Archive {
    /// The raw bytes this archive was opened over.
    pub closed spec fn bytes(&self) -> Seq<u8> {
        self.data@
    }

    /// What this archive was parsed as.
    pub closed spec fn model(&self) -> ArchiveModel {
        ArchiveModel {
            base: self.offset as int,
            user_data_header: self.user_data_header,
            header: self.header,
            hash_table: self.hash_table@,
            block_table: self.block_table@,
        }
    }

    /// The sector size in bytes, `512 << sector_size_shift`.
    pub closed spec fn spec_sector_size(&self) -> u32 {
        self.sector_size
    }

    /// An archive is exactly what [`spec_open`] says of its bytes.
    pub closed spec fn wf(&self) -> bool {
        &&& self.crypt.wf()
        &&& spec_open(self.data@) == Ok::<ArchiveModel, MpqError>(self.model())
        &&& self.hash_table@.len() == self.header.hash_table_count
        &&& self.block_table@.len() == self.header.block_table_count
        &&& self.header.hash_table_count >= 1
        &&& self.header.sector_size_shift <= 22
        &&& self.sector_size == (512u32 << self.header.sector_size_shift as u32)
        &&& self.offset + 44 <= self.data@.len()
    }

    /// Open the bytes of an MPQ file: locate the header (skipping a
    /// user-data prelude when one leads), then decrypt and parse the hash
    /// and block directories.
    pub fn open(data: Vec<u8>) -> (r: Result<Archive, MpqError>)
        ensures
            match r {
                Ok(a) => {
                    &&& a.wf()
                    &&& a.bytes() == data@
                    &&& spec_open(data@) == Ok::<ArchiveModel, MpqError>(a.model())
                },
                Err(e) => spec_open(data@) == Err::<ArchiveModel, MpqError>(e),
            },
    {
        reveal(spec_open);
        let crypt = CryptTable::new();
        let (base, user_data_header) = match locate_header(&data) {
            Ok(found) => found,
            Err(e) => {
                return Err(e);
            },
        };
        let data_len = data.len();
        assert(base + 44 <= data_len);
        let header = Header::new(slice_subrange(data.as_slice(), base, base + 44));
        if header.hash_table_count == 0 || header.sector_size_shift > 22 {
            return Err(MpqError::InvalidData);
        }
        let mut hash_bytes = match read_region(
            &data,
            base,
            header.hash_table_offset as u64,
            16u64 * header.hash_table_count as u64,
        ) {
            Ok(v) => v,
            Err(e) => {
                return Err(e);
            },
        };
        crypt.decrypt(&mut hash_bytes, hash_table_key(&crypt));
        let mut block_bytes = match read_region(
            &data,
            base,
            header.block_table_offset as u64,
            16u64 * header.block_table_count as u64,
        ) {
            Ok(v) => v,
            Err(e) => {
                return Err(e);
            },
        };
        crypt.decrypt(&mut block_bytes, block_table_key(&crypt));

        let mut hash_table: Vec<Hash> = Vec::new();
        let count = header.hash_table_count as usize;
        let mut x: usize = 0;
        while x < count
            invariant
                x <= count,
                hash_bytes@.len() <= usize::MAX,
                hash_bytes@.len() == 16 * count,
                hash_table@.len() == x,
                forall|i: int|
                    0 <= i < x ==> hash_table@[i] == spec_hash_entry(
                        hash_bytes@.subrange(16 * i, 16 * i + 16),
                    ),
            decreases count - x,
        {
            hash_table.push(Hash::new(slice_subrange(hash_bytes.as_slice(), 16 * x, 16 * x + 16)));
            x = x + 1;
        }
        assert(hash_table@ =~= spec_hash_entries(hash_bytes@, count as int));

        let mut block_table: Vec<Block> = Vec::new();
        let bcount = header.block_table_count as usize;
        let mut y: usize = 0;
        while y < bcount
            invariant
                y <= bcount,
                block_bytes@.len() <= usize::MAX,
                block_bytes@.len() == 16 * bcount,
                block_table@.len() == y,
                forall|i: int|
                    0 <= i < y ==> block_table@[i] == spec_block_entry(
                        block_bytes@.subrange(16 * i, 16 * i + 16),
                    ),
            decreases bcount - y,
        {
            block_table.push(
                Block::new(slice_subrange(block_bytes.as_slice(), 16 * y, 16 * y + 16)),
            );
            y = y + 1;
        }
        assert(block_table@ =~= spec_block_entries(block_bytes@, bcount as int));

        let sector_size: u32 = 512u32 << header.sector_size_shift as u32;
        Ok(
            Archive {
                data,
                crypt,
                header,
                user_data_header,
                hash_table,
                block_table,
                sector_size,
                offset: base as u64,
            },
        )
    }

    /// The user data that precedes the archive header: `user_data_size`
    /// bytes straight after the 16-byte prelude, or `None` when the archive
    /// has no prelude.
    pub fn read_user_data(&self) -> (r: Result<Option<Vec<u8>>, MpqError>)
        requires
            self.wf(),
        ensures
            match r {
                Ok(v) => match self.model().user_data_header {
                    Some(udh) => {
                        &&& v is Some
                        &&& 16 + udh.user_data_size <= self.bytes().len()
                        &&& v->Some_0@ == self.bytes().subrange(16, 16 + udh.user_data_size)
                    },
                    None => v is None,
                },
                Err(e) => {
                    &&& e == MpqError::UnexpectedEof
                    &&& self.model().user_data_header is Some
                    &&& 16 + self.model().user_data_header->Some_0.user_data_size
                        > self.bytes().len()
                },
            },
    {
        match self.user_data_header {
            Some(udh) => {
                let v = match read_region(&self.data, 0, 16, udh.user_data_size as u64) {
                    Ok(v) => v,
                    Err(e) => {
                        return Err(e);
                    },
                };
                Ok(Some(v))
            },
            None => Ok(None),
        }
    }
}

/// The hash-table slot a probe for `(ha, hb)` settles on, scanning from
/// `start + step` and wrapping modulo the table length: `None` when a
/// never-used slot or a full turn of the table ends the probe.
pub open spec fn spec_probe(table: Seq<Hash>, start: int, ha: u32, hb: u32, step: int) -> Option<
    int,
>
    decreases table.len() - step,
{
    if step >= table.len() {
        None
    } else {
        let idx = (start + step) % (table.len() as int);
        let e = table[idx];
        if e.block_index == BLOCK_INDEX_EMPTY {
            None
        } else if e.block_index == BLOCK_INDEX_DELETED {
            spec_probe(table, start, ha, hb, step + 1)
        } else if e.hash_a == ha && e.hash_b == hb {
            Some(idx)
        } else {
            spec_probe(table, start, ha, hb, step + 1)
        }
    }
}

/// The path component after the last `\` or `/`; the whole name when it has
/// no separator, empty when it ends with one.
pub open spec fn spec_basename(name: Seq<u8>) -> Seq<u8>
    decreases name.len(),
{
    if name.len() == 0 {
        Seq::empty()
    } else if name[name.len() - 1] == 0x5C || name[name.len() - 1] == 0x2F {
        Seq::empty()
    } else {
        spec_basename(name.drop_last()).push(name.last())
    }
}

/// The stream-cipher key of a file: zero when the file is not encrypted,
/// else the file-key hash of the basename, adjusted by block offset and
/// unpacked size when `FIX_KEY` is set.
pub open spec fn spec_file_key(name: Seq<u8>, block: Block) -> u32 {
    if block.flags & FILE_ENCRYPTED == 0 {
        0
    } else {
        let base = spec_hash_string(spec_basename(name), 0x300);
        if block.flags & FILE_FIX_KEY != 0 {
            base.wrapping_add(block.offset) ^ block.unpacked_size
        } else {
            base
        }
    }
}

/// How many sectors a file of `unpacked` bytes fills: the ceiling of
/// `unpacked / sector_size`, zero exactly for the empty file.
pub open spec fn spec_num_sectors(unpacked: u32, sector_size: u32) -> int {
    if unpacked == 0 {
        0
    } else {
        (unpacked - 1) / (sector_size as int) + 1
    }
}

/// The `n + 1` sector offsets stored at the block's start, decrypted with
/// `key - 1` when the file is encrypted.
#[verifier::opaque]
pub open spec fn spec_sector_offsets_raw(
    data: Seq<u8>,
    base: int,
    block: Block,
    key: u32,
    n: int,
) -> Result<Seq<u32>, MpqError> {
    let start = base + block.offset;
    let len = 4 * (n + 1);
    if start + len > data.len() {
        Err(MpqError::UnexpectedEof)
    } else {
        let raw = data.subrange(start, start + len);
        let bytes = if block.flags & FILE_ENCRYPTED != 0 {
            spec_decrypt(raw, key.wrapping_sub(1))
        } else {
            raw
        };
        Ok(Seq::new((n + 1) as nat, |i: int| spec_u32_from_le_bytes(bytes.subrange(4 * i, 4 * i + 4))))
    }
}

/// A usable sector index is strictly increasing, and its terminator is the
/// block's packed size — or at most the packed size when a checksum sector
/// follows it.
pub open spec fn spec_offsets_valid(offs: Seq<u32>, block: Block, crc: bool) -> bool {
    &&& forall|i: int| 0 <= i < offs.len() - 1 ==> #[trigger] offs[i] < offs[i + 1]
    &&& offs.len() >= 1
    &&& if crc {
        offs[offs.len() - 1] <= block.packed_size
    } else {
        offs[offs.len() - 1] == block.packed_size
    }
}

/// The per-sector Adler-32 values: one extra offset word closes the index;
/// when the region between the terminator and that word holds exactly one
/// word per sector it is read as the checksums, otherwise checksums are
/// absent and skipped.
#[verifier::opaque]
pub open spec fn spec_load_checksums(
    data: Seq<u8>,
    base: int,
    block: Block,
    offs: Seq<u32>,
    n: int,
) -> Result<Seq<u32>, MpqError> {
    let pos = base + block.offset + 4 * (n + 1);
    if pos + 4 > data.len() {
        Err(MpqError::UnexpectedEof)
    } else {
        let last_offset = spec_u32_from_le_bytes(data.subrange(pos, pos + 4));
        let cs_off = offs[n];
        if last_offset >= cs_off && last_offset - cs_off == 4 * n {
            let cstart = base + block.offset + cs_off;
            if cstart + 4 * n > data.len() {
                Err(MpqError::UnexpectedEof)
            } else {
                Ok(
                    Seq::new(
                        n as nat,
                        |i: int|
                            spec_u32_from_le_bytes(
                                data.subrange(cstart + 4 * i, cstart + 4 * i + 4),
                            ),
                    ),
                )
            }
        } else {
            Ok(Seq::empty())
        }
    }
}

/// The sector index and checksum array of a sectored, compressed file:
/// offsets read and decrypted, validated, and checksums loaded when both
/// `COMPRESS` and `SECTOR_CRC` are set.
#[verifier::opaque]
pub open spec fn spec_load_index(
    data: Seq<u8>,
    base: int,
    block: Block,
    key: u32,
    sector_size: u32,
) -> Result<(Seq<u32>, Seq<u32>), MpqError> {
    let n = spec_num_sectors(block.unpacked_size, sector_size);
    let crc = block.flags & FILE_COMPRESS != 0 && block.flags & FILE_SECTOR_CRC != 0;
    match spec_sector_offsets_raw(data, base, block, key, n) {
        Err(e) => Err(e),
        Ok(offs) => {
            if !spec_offsets_valid(offs, block, crc) {
                Err(MpqError::InvalidData)
            } else if crc {
                match spec_load_checksums(data, base, block, offs, n) {
                    Err(e) => Err(e),
                    Ok(sums) => Ok((offs, sums)),
                }
            } else {
                Ok((offs, Seq::empty()))
            }
        },
    }
}

/// Everything `Archive::open_file` determines about a named file.
pub struct FileModel {
    /// The requested name, as bytes.
    pub name: Seq<u8>,
    pub hash: Hash,
    pub block: Block,
    pub sector_offsets: Seq<u32>,
    pub sector_checksums: Seq<u32>,
    pub file_key: u32,
}

/// The result of resolving `name` in an opened archive: probe the hash
/// table, reject a live entry whose block index reaches past the block
/// table, compute the file key, and load the sector index of a sectored,
/// compressed file.
/// The directory entries a name resolves to: probe the hash table, then
/// check the live entry's block index against the block table.
#[verifier::opaque]
pub open spec fn spec_resolve(m: ArchiveModel, name: Seq<u8>) -> Result<(Hash, Block), MpqError> {
    let count = m.header.hash_table_count;
    let start = (spec_hash_string(name, 0x000) & (count - 1) as u32) as int;
    let ha = spec_hash_string(name, 0x100);
    let hb = spec_hash_string(name, 0x200);
    match spec_probe(m.hash_table, start, ha, hb, 0) {
        None => Err(MpqError::NotFound),
        Some(idx) => {
            let h = m.hash_table[idx];
            if h.block_index >= m.block_table.len() {
                Err(MpqError::InvalidData)
            } else {
                Ok((h, m.block_table[h.block_index as int]))
            }
        },
    }
}

/// The result of resolving `name` in an opened archive: probe the hash
/// table, compute the file key, and load the sector index of a sectored,
/// compressed file.
#[verifier::opaque]
pub open spec fn spec_open_file(
    m: ArchiveModel,
    data: Seq<u8>,
    sector_size: u32,
    name: Seq<u8>,
) -> Result<FileModel, MpqError> {
    match spec_resolve(m, name) {
        Err(e) => Err(e),
        Ok((h, b)) => {
            let key = spec_file_key(name, b);
            if b.flags & FILE_SINGLE_UNIT == 0 && b.flags & FILE_COMPRESS_MASK != 0 {
                match spec_load_index(data, m.base, b, key, sector_size) {
                    Err(e) => Err(e),
                    Ok(index) => Ok(
                        FileModel {
                            name,
                            hash: h,
                            block: b,
                            sector_offsets: index.0,
                            sector_checksums: index.1,
                            file_key: key,
                        },
                    ),
                }
            } else {
                Ok(
                    FileModel {
                        name,
                        hash: h,
                        block: b,
                        sector_offsets: Seq::empty(),
                        sector_checksums: Seq::empty(),
                        file_key: key,
                    },
                )
            }
        },
    }
}

/// What `File::read` relies on: a file of a well-formed archive either
/// carries no index, or carries a strictly increasing one of the right
/// length whose checksum array is absent or one word per sector.
pub open spec fn spec_file_wf(f: FileModel, sector_size: u32) -> bool {
    &&& sector_size >= 512
    &&& if f.block.flags & FILE_SINGLE_UNIT == 0 && f.block.flags & FILE_COMPRESS_MASK != 0 {
        let n = spec_num_sectors(f.block.unpacked_size, sector_size);
        let crc = f.block.flags & FILE_COMPRESS != 0 && f.block.flags & FILE_SECTOR_CRC != 0;
        &&& f.sector_offsets.len() == n + 1
        &&& spec_offsets_valid(f.sector_offsets, f.block, crc)
        &&& (f.sector_checksums.len() == 0 || f.sector_checksums.len() == n)
    } else {
        f.sector_offsets.len() == 0 && f.sector_checksums.len() == 0
    }
}

/// An open file: copies of its directory entries, its sector index and
/// checksums, and its cipher key. Decoding happens in [`File::read`].
pub struct File {
    name: Vec<u8>,
    hash: Hash,
    block: Block,
    sector_offsets: Vec<u32>,
    sector_checksums: Vec<u32>,
    file_key: u32,
}

impl File {
    /// What this file was resolved as.
    pub closed spec fn view(&self) -> FileModel {
        FileModel {
            name: self.name@,
            hash: self.hash,
            block: self.block,
            sector_offsets: self.sector_offsets@,
            sector_checksums: self.sector_checksums@,
            file_key: self.file_key,
        }
    }

    /// This file came out of `archive` and its index obeys [`spec_file_wf`].
    pub open spec fn wf(&self, archive: &Archive) -> bool {
        spec_file_wf(self.view(), archive.spec_sector_size())
    }

    /// The file's unpacked size in bytes.
    pub fn size(&self) -> (r: u32)
        ensures
            r == self.view().block.unpacked_size,
    {
        self.block.unpacked_size
    }
}

fn parse_u32s(bytes: &Vec<u8>, count: usize) -> (r: Vec<u32>)
    requires
        bytes@.len() >= 4 * count,
    ensures
        r@ == Seq::new(
            count as nat,
            |i: int| spec_u32_from_le_bytes(bytes@.subrange(4 * i, 4 * i + 4)),
        ),
{
    let total = bytes.len();
    let mut out: Vec<u32> = Vec::new();
    let mut i: usize = 0;
    while i < count
        invariant
            i <= count,
            bytes@.len() >= 4 * count,
            bytes@.len() == total,
            out@.len() == i,
            forall|q: int|
                0 <= q < i ==> out@[q] == spec_u32_from_le_bytes(
                    bytes@.subrange(4 * q, 4 * q + 4),
                ),
        decreases count - i,
    {
        out.push(u32_from_le_bytes(slice_subrange(bytes.as_slice(), 4 * i, 4 * i + 4)));
        i = i + 1;
    }
    assert(out@ =~= Seq::new(
        count as nat,
        |i: int| spec_u32_from_le_bytes(bytes@.subrange(4 * i, 4 * i + 4)),
    ));
    out
}

/// The basename of a path: the bytes after the last `\` or `/`.
fn basename_of(name: &[u8]) -> (r: Vec<u8>)
    ensures
        r@ == spec_basename(name@),
{
    let mut acc: Vec<u8> = Vec::new();
    let mut i: usize = 0;
    while i < name.len()
        invariant
            i <= name@.len(),
            acc@ == spec_basename(name@.take(i as int)),
        decreases name@.len() - i,
    {
        let b = name[i];
        if b == 0x5C || b == 0x2F {
            acc.clear();
        } else {
            acc.push(b);
        }
        proof {
            assert(name@.take(i + 1).drop_last() =~= name@.take(i as int));
            assert(name@.take(i + 1).last() == name@[i as int]);
        }
        i = i + 1;
    }
    proof {
        assert(name@.take(name@.len() as int) =~= name@);
    }
    acc
}

/// Decide [`spec_offsets_valid`] of a sector index.
fn check_offsets(offsets: &Vec<u32>, block: Block, crc: bool) -> (b: bool)
    ensures
        b == spec_offsets_valid(offsets@, block, crc),
{
    let len = offsets.len();
    if len == 0 {
        return false;
    }
    let mut i: usize = 0;
    while i + 1 < len
        invariant
            len == offsets@.len(),
            i < len,
            forall|q: int| 0 <= q < i ==> #[trigger] offsets@[q] < offsets@[q + 1],
        decreases len - i,
    {
        if offsets[i] >= offsets[i + 1] {
            return false;
        }
        i = i + 1;
    }
    if crc {
        offsets[len - 1] <= block.packed_size
    } else {
        offsets[len - 1] == block.packed_size
    }
}

impl Archive {
    /// Probe the hash table for `(ha, hb)` starting at slot `start`.
    fn probe_slot(&self, start: u32, ha: u32, hb: u32) -> (r: Option<usize>)
        requires
            self.wf(),
        ensures
            match r {
                Some(idx) => idx < self.model().hash_table.len() && spec_probe(
                    self.model().hash_table,
                    start as int,
                    ha,
                    hb,
                    0,
                ) == Some(idx as int),
                None => spec_probe(self.model().hash_table, start as int, ha, hb, 0)
                    is None,
            },
    {
        let count = self.header.hash_table_count;
        let mut step: u32 = 0;
        while step < count
            invariant
                self.wf(),
                count == self.header.hash_table_count,
                step <= count,
                spec_probe(self.model().hash_table, start as int, ha, hb, 0) == spec_probe(
                    self.model().hash_table,
                    start as int,
                    ha,
                    hb,
                    step as int,
                ),
            decreases count - step,
        {
            let idx = (((start as u64) + (step as u64)) % (count as u64)) as usize;
            let e = self.hash_table[idx];
            if e.block_index == BLOCK_INDEX_EMPTY {
                return None;
            }
            if e.block_index != BLOCK_INDEX_DELETED && e.hash_a == ha && e.hash_b == hb {
                return Some(idx);
            }
            step = step + 1;
        }
        None
    }

    /// Read and decrypt the raw sector-offset words of `block`.
    fn read_sector_offsets(&self, block: Block, file_key: u32, num: u32) -> (r: Result<
        Vec<u32>,
        MpqError,
    >)
        requires
            self.wf(),
            num == spec_num_sectors(block.unpacked_size, self.spec_sector_size()),
        ensures
            match r {
                Ok(v) => spec_sector_offsets_raw(
                    self.bytes(),
                    self.model().base,
                    block,
                    file_key,
                    num as int,
                ) == Ok::<Seq<u32>, MpqError>(v@) && v@.len() == num + 1,
                Err(e) => spec_sector_offsets_raw(
                    self.bytes(),
                    self.model().base,
                    block,
                    file_key,
                    num as int,
                ) == Err::<Seq<u32>, MpqError>(e),
            },
    {
        reveal(spec_sector_offsets_raw);
        let data_len = self.data.len();
        let base = self.offset as usize;
        let mut sbytes = match read_region(
            &self.data,
            base,
            block.offset as u64,
            4 * (num as u64 + 1),
        ) {
            Ok(v) => v,
            Err(e) => {
                return Err(e);
            },
        };
        if block.flags & FILE_ENCRYPTED != 0 {
            self.crypt.decrypt(&mut sbytes, file_key.wrapping_sub(1));
        }
        let offsets = parse_u32s(&sbytes, num as usize + 1);
        assert(offsets@ =~= spec_sector_offsets_raw(
            self.bytes(),
            self.model().base,
            block,
            file_key,
            num as int,
        )->Ok_0);
        Ok(offsets)
    }

    /// Load the checksum words that close a `SECTOR_CRC` file's index.
    fn load_checksums(&self, block: Block, offsets: &Vec<u32>, num: u32) -> (r: Result<
        Vec<u32>,
        MpqError,
    >)
        requires
            self.wf(),
            offsets@.len() == num + 1,
        ensures
            match r {
                Ok(v) => spec_load_checksums(
                    self.bytes(),
                    self.model().base,
                    block,
                    offsets@,
                    num as int,
                ) == Ok::<Seq<u32>, MpqError>(v@) && (v@.len() == 0 || v@.len() == num),
                Err(e) => spec_load_checksums(
                    self.bytes(),
                    self.model().base,
                    block,
                    offsets@,
                    num as int,
                ) == Err::<Seq<u32>, MpqError>(e),
            },
    {
        reveal(spec_load_checksums);
        let data_len = self.data.len();
        let base = self.offset as usize;
        let extra = match read_region(
            &self.data,
            base,
            block.offset as u64 + 4 * (num as u64 + 1),
            4,
        ) {
            Ok(v) => v,
            Err(e) => {
                return Err(e);
            },
        };
        assert(extra@.subrange(0, 4) =~= extra@);
        let last_offset = u32_from_le_bytes(slice_subrange(extra.as_slice(), 0, 4));
        let cs_off = offsets[num as usize];
        if last_offset >= cs_off && (last_offset - cs_off) as u64 == 4 * (num as u64) {
            let cbytes = match read_region(
                &self.data,
                base,
                block.offset as u64 + cs_off as u64,
                4 * (num as u64),
            ) {
                Ok(v) => v,
                Err(e) => {
                    return Err(e);
                },
            };
            let sums = parse_u32s(&cbytes, num as usize);
            let ghost target = spec_load_checksums(
                self.bytes(),
                self.model().base,
                block,
                offsets@,
                num as int,
            )->Ok_0;
            proof {
                let cstart = self.model().base + block.offset + cs_off;
                assert forall|q: int| 0 <= q < num as int implies sums@[q] == target[q] by {
                    assert(cbytes@.subrange(4 * q, 4 * q + 4) =~= self.bytes().subrange(
                        cstart + 4 * q,
                        cstart + 4 * q + 4,
                    ));
                }
                assert(sums@ =~= target);
            }
            Ok(sums)
        } else {
            Ok(Vec::new())
        }
    }

    /// Read, decrypt and validate the sector index of a sectored,
    /// compressed file, with its checksum array when one is armed.
    fn load_sector_index(&self, block: Block, file_key: u32) -> (r: Result<
        (Vec<u32>, Vec<u32>),
        MpqError,
    >)
        requires
            self.wf(),
            block.flags & FILE_SINGLE_UNIT == 0,
            block.flags & FILE_COMPRESS_MASK != 0,
        ensures
            match r {
                Ok(v) => {
                    &&& spec_load_index(
                        self.bytes(),
                        self.model().base,
                        block,
                        file_key,
                        self.spec_sector_size(),
                    ) == Ok::<(Seq<u32>, Seq<u32>), MpqError>((v.0@, v.1@))
                    &&& v.0@.len() == spec_num_sectors(
                        block.unpacked_size,
                        self.spec_sector_size(),
                    ) + 1
                    &&& spec_offsets_valid(
                        v.0@,
                        block,
                        block.flags & FILE_COMPRESS != 0 && block.flags & FILE_SECTOR_CRC != 0,
                    )
                    &&& (v.1@.len() == 0 || v.1@.len() == spec_num_sectors(
                        block.unpacked_size,
                        self.spec_sector_size(),
                    ))
                },
                Err(e) => spec_load_index(
                    self.bytes(),
                    self.model().base,
                    block,
                    file_key,
                    self.spec_sector_size(),
                ) == Err::<(Seq<u32>, Seq<u32>), MpqError>(e),
            },
    {
        reveal(spec_load_index);
        assert(self.spec_sector_size() >= 512) by {
            let sh = self.header.sector_size_shift;
            assert(sh <= 22 ==> (512u32 << sh as u32) >= 512) by (bit_vector);
        }
        let num: u32 = if block.unpacked_size == 0 {
            0
        } else {
            (block.unpacked_size - 1) / self.sector_size + 1
        };
        let offsets = match self.read_sector_offsets(block, file_key, num) {
            Ok(v) => v,
            Err(e) => {
                return Err(e);
            },
        };
        let crc = block.flags & FILE_COMPRESS != 0 && block.flags & FILE_SECTOR_CRC != 0;
        if !check_offsets(&offsets, block, crc) {
            return Err(MpqError::InvalidData);
        }
        if !crc {
            return Ok((offsets, Vec::new()));
        }
        let sums = match self.load_checksums(block, &offsets, num) {
            Ok(v) => v,
            Err(e) => {
                return Err(e);
            },
        };
        Ok((offsets, sums))
    }

    /// Probe the hash directory for a name's entries.
    fn resolve_entry(&self, name: &[u8]) -> (r: Result<(Hash, Block), MpqError>)
        requires
            self.wf(),
        ensures
            match r {
                Ok(v) => spec_resolve(self.model(), name@) == Ok::<(Hash, Block), MpqError>(v),
                Err(e) => spec_resolve(self.model(), name@) == Err::<(Hash, Block), MpqError>(e),
            },
    {
        reveal(spec_resolve);
        let start = self.crypt.hash_bytes(name, 0x000) & (self.header.hash_table_count - 1);
        let hash_a = self.crypt.hash_bytes(name, 0x100);
        let hash_b = self.crypt.hash_bytes(name, 0x200);
        let idx = match self.probe_slot(start, hash_a, hash_b) {
            Some(idx) => idx,
            None => {
                return Err(MpqError::NotFound);
            },
        };
        let hash = self.hash_table[idx];
        if hash.block_index >= self.header.block_table_count {
            return Err(MpqError::InvalidData);
        }
        Ok((hash, self.block_table[hash.block_index as usize]))
    }

    /// Resolve a name given as raw bytes, as [`Self::open_file`] does.
    pub fn open_file_bytes(&self, name: &[u8]) -> (r: Result<File, MpqError>)
        requires
            self.wf(),
        ensures
            match r {
                Ok(f) => {
                    &&& spec_open_file(
                        self.model(),
                        self.bytes(),
                        self.spec_sector_size(),
                        name@,
                    ) == Ok::<FileModel, MpqError>(f@)
                    &&& f.wf(self)
                },
                Err(e) => spec_open_file(
                    self.model(),
                    self.bytes(),
                    self.spec_sector_size(),
                    name@,
                ) == Err::<FileModel, MpqError>(e),
            },
    {
        reveal(spec_open_file);
        let (hash, block) = match self.resolve_entry(name) {
            Ok(v) => v,
            Err(e) => {
                return Err(e);
            },
        };

        let mut file_key: u32 = 0;
        if block.flags & FILE_ENCRYPTED != 0 {
            let basename = basename_of(name);
            file_key = self.crypt.hash_bytes(basename.as_slice(), 0x300);
            if block.flags & FILE_FIX_KEY != 0 {
                file_key = file_key.wrapping_add(block.offset) ^ block.unpacked_size;
            }
        }
        assert(file_key == spec_file_key(name@, block));

        let mut sector_offsets: Vec<u32> = Vec::new();
        let mut sector_checksums: Vec<u32> = Vec::new();
        if block.flags & FILE_SINGLE_UNIT == 0 && block.flags & FILE_COMPRESS_MASK != 0 {
            let index = match self.load_sector_index(block, file_key) {
                Ok(v) => v,
                Err(e) => {
                    return Err(e);
                },
            };
            sector_offsets = index.0;
            sector_checksums = index.1;
        }
        assert(self.spec_sector_size() >= 512) by {
            let sh = self.header.sector_size_shift;
            assert(sh <= 22 ==> (512u32 << sh as u32) >= 512) by (bit_vector);
        }
        Ok(
            File {
                name: slice_to_vec(name),
                hash,
                block,
                sector_offsets,
                sector_checksums,
                file_key,
            },
        )
    }

    /// Resolve a name in the archive: probe the hash directory, copy the
    /// matching entries, compute the file key, and load the sector index of
    /// a sectored, compressed file.
    pub fn open_file(&self, filename: &str) -> (r: Result<File, MpqError>)
        requires
            self.wf(),
        ensures
            match r {
                Ok(f) => {
                    &&& spec_open_file(
                        self.model(),
                        self.bytes(),
                        self.spec_sector_size(),
                        filename.spec_bytes(),
                    ) == Ok::<FileModel, MpqError>(f@)
                    &&& f.wf(self)
                },
                Err(e) => spec_open_file(
                    self.model(),
                    self.bytes(),
                    self.spec_sector_size(),
                    filename.spec_bytes(),
                ) == Err::<FileModel, MpqError>(e),
            },
    {
        self.open_file_bytes(filename.as_bytes())
    }
}

/// The Adler-32 checksum of a byte buffer, rolled from initial value 0 as
/// the sector checksums of the format are: a pure function of the bytes.
pub uninterp spec fn spec_adler32(data: Seq<u8>) -> u32;

/// Relies on adler32::RollingAdler32: from initial value 0, its hash over a
/// buffer depends on the bytes alone.
#[verifier::external_body]
fn adler32(data: &[u8]) -> (r: u32)
    ensures
        r == spec_adler32(data@),
{
    let mut adler = adler32::RollingAdler32::from_value(0);
    adler.update_buffer(data);
    adler.hash()
}

/// `buf` with `patch` written over its bytes from `start` on.
pub open spec fn spec_overwrite(buf: Seq<u8>, start: int, patch: Seq<u8>) -> Seq<u8> {
    buf.take(start) + patch + buf.skip(start + patch.len())
}

/// Sector `i` of a file as it leaves the disk: its stored bytes, decrypted
/// with `file_key + i` when the file is encrypted.
pub open spec fn spec_sector_plain(data: Seq<u8>, base: int, f: FileModel, i: int) -> Seq<u8> {
    let s = base + f.block.offset + f.sector_offsets[i];
    let e = base + f.block.offset + f.sector_offsets[i + 1];
    let raw = data.subrange(s, e);
    if f.block.flags & FILE_ENCRYPTED != 0 {
        spec_decrypt(raw, f.file_key.wrapping_add(i as u32))
    } else {
        raw
    }
}

/// What decoding sector `i` does to a buffer holding `read` bytes already:
/// the sector is read and decrypted, checked against its armed checksum,
/// and then copied verbatim when it was stored raw — its on-disk length is
/// the nominal sector size or the whole remaining space — or handed to the
/// codec the block's flags select.
#[verifier::opaque]
pub open spec fn spec_sector_step(
    data: Seq<u8>,
    base: int,
    f: FileModel,
    sector_size: u32,
    buf: Seq<u8>,
    i: int,
    read: int,
) -> Result<(Seq<u8>, int), MpqError> {
    let off0 = f.sector_offsets[i];
    let off1 = f.sector_offsets[i + 1];
    if base + f.block.offset + off1 > data.len() {
        Err(MpqError::UnexpectedEof)
    } else {
        let plain = spec_sector_plain(data, base, f, i);
        if f.sector_checksums.len() > 0 && i < f.sector_checksums.len()
            && f.sector_checksums[i] != 0 && spec_adler32(plain) != f.sector_checksums[i] {
            Err(MpqError::ChecksumError)
        } else {
            let len_i = off1 - off0;
            let remaining = buf.len() - read;
            if f.block.flags & FILE_COMPRESS != 0 {
                if len_i == sector_size || len_i == remaining {
                    let cnt = if len_i <= remaining {
                        len_i
                    } else {
                        remaining
                    };
                    Ok((spec_overwrite(buf, read, plain.take(cnt)), read + cnt))
                } else {
                    match spec_decompress_unit(plain, remaining as nat) {
                        Err(e) => Err(e),
                        Ok(out) => Ok((spec_overwrite(buf, read, out), read + out.len())),
                    }
                }
            } else if f.block.flags & FILE_IMPLODE != 0 {
                if len_i == sector_size || len_i == remaining {
                    let cnt = if len_i <= remaining {
                        len_i
                    } else {
                        remaining
                    };
                    Ok((spec_overwrite(buf, read, plain.take(cnt)), read + cnt))
                } else {
                    Err(MpqError::Unsupported)
                }
            } else {
                Ok((buf, read))
            }
        }
    }
}

/// The sectored read from sector `i` on: fold [`spec_sector_step`] over the
/// remaining sectors.
pub open spec fn spec_read_sectors(
    data: Seq<u8>,
    base: int,
    f: FileModel,
    sector_size: u32,
    buf: Seq<u8>,
    i: int,
    read: int,
) -> Result<(Seq<u8>, int), MpqError>
    decreases f.sector_offsets.len() - i,
{
    if i < 0 || i + 1 >= f.sector_offsets.len() {
        Ok((buf, read))
    } else {
        match spec_sector_step(data, base, f, sector_size, buf, i, read) {
            Err(e) => Err(e),
            Ok(next) => spec_read_sectors(data, base, f, sector_size, next.0, i + 1, next.1),
        }
    }
}

/// A single-unit read: the block's packed bytes, decrypted with the file
/// key, decoded when `COMPRESS` is set and the unit actually shrank on
/// disk, copied verbatim otherwise. A verbatim copy reports the unpacked
/// size.
pub open spec fn spec_read_single_unit(
    data: Seq<u8>,
    base: int,
    f: FileModel,
    buf: Seq<u8>,
) -> Result<(Seq<u8>, int), MpqError> {
    let s = base + f.block.offset;
    if s + f.block.packed_size > data.len() {
        Err(MpqError::UnexpectedEof)
    } else {
        let raw = data.subrange(s, s + f.block.packed_size);
        let plain = if f.block.flags & FILE_ENCRYPTED != 0 {
            spec_decrypt(raw, f.file_key)
        } else {
            raw
        };
        if f.block.flags & FILE_COMPRESS != 0 && buf.len() > plain.len() {
            match spec_decompress_unit(plain, buf.len()) {
                Err(e) => Err(e),
                Ok(out) => Ok((spec_overwrite(buf, 0, out), out.len() as int)),
            }
        } else if f.block.flags & FILE_IMPLODE != 0 {
            Err(MpqError::Unsupported)
        } else {
            let cnt = if buf.len() <= plain.len() {
                buf.len() as int
            } else {
                plain.len() as int
            };
            Ok((spec_overwrite(buf, 0, plain.take(cnt)), f.block.unpacked_size as int))
        }
    }
}

/// What `File::read` yields into a buffer: a patch file is refused; a
/// single-unit file is decoded as one unit; a sectored compressed file is
/// decoded sector by sector; an uncompressed sectored file is one verbatim
/// copy of the buffer's length from the block's start.
pub open spec fn spec_read(
    data: Seq<u8>,
    base: int,
    f: FileModel,
    sector_size: u32,
    buf: Seq<u8>,
) -> Result<(Seq<u8>, int), MpqError> {
    if f.block.flags & FILE_PATCH_FILE != 0 {
        Err(MpqError::Unsupported)
    } else if f.block.flags & FILE_SINGLE_UNIT != 0 {
        spec_read_single_unit(data, base, f, buf)
    } else if f.block.flags & FILE_COMPRESS_MASK != 0 {
        spec_read_sectors(data, base, f, sector_size, buf, 0, 0)
    } else {
        let s = base + f.block.offset;
        if s + buf.len() > data.len() {
            Err(MpqError::UnexpectedEof)
        } else {
            Ok((data.subrange(s, s + buf.len()), buf.len() as int))
        }
    }
}

/// Copy the first `cnt` bytes of `src` over `out`, starting at `start`.
fn copy_into(src: &Vec<u8>, cnt: usize, out: &mut Vec<u8>, start: usize)
    requires
        cnt <= src@.len(),
        start + cnt <= old(out)@.len(),
    ensures
        final(out)@.len() == old(out)@.len(),
        final(out)@ == spec_overwrite(old(out)@, start as int, src@.take(cnt as int)),
{
    let total = out.len();
    let mut t: usize = 0;
    while t < cnt
        invariant
            cnt <= src@.len(),
            start + cnt <= out@.len(),
            out@.len() == total,
            out@.len() == old(out)@.len(),
            t <= cnt,
            forall|j: int| start <= j < start + t ==> #[trigger] out@[j] == src@[j - start],
            forall|j: int|
                0 <= j < out@.len() && !(start <= j < start + t) ==> #[trigger] out@[j] == old(
                    out,
                )@[j],
        decreases cnt - t,
    {
        out[start + t] = src[t];
        t = t + 1;
    }
    assert(out@ =~= spec_overwrite(old(out)@, start as int, src@.take(cnt as int)));
}

impl File {
    /// Decode a single-unit file into `buf`.
    fn read_single_unit(&self, archive: &Archive, buf: &mut Vec<u8>) -> (r: Result<
        usize,
        MpqError,
    >)
        requires
            archive.wf(),
            self.wf(archive),
        ensures
            final(buf)@.len() == old(buf)@.len(),
            match r {
                Ok(n) => spec_read_single_unit(
                    archive.bytes(),
                    archive.model().base,
                    self@,
                    old(buf)@,
                ) == Ok::<(Seq<u8>, int), MpqError>((final(buf)@, n as int)),
                Err(e) => spec_read_single_unit(
                    archive.bytes(),
                    archive.model().base,
                    self@,
                    old(buf)@,
                ) == Err::<(Seq<u8>, int), MpqError>(e),
            },
    {
        let data_len = archive.data.len();
        let base = archive.offset as usize;
        let mut in_buff = match read_region(
            &archive.data,
            base,
            self.block.offset as u64,
            self.block.packed_size as u64,
        ) {
            Ok(v) => v,
            Err(e) => {
                return Err(e);
            },
        };
        if self.block.flags & FILE_ENCRYPTED != 0 {
            archive.crypt.decrypt(&mut in_buff, self.file_key);
        }
        if self.block.flags & FILE_COMPRESS != 0 && buf.len() > in_buff.len() {
            let ghost prev = buf@;
            let n = match decompress_into(in_buff.as_slice(), buf, 0) {
                Ok(n) => n,
                Err(e) => {
                    return Err(e);
                },
            };
            proof {
                let out = spec_decompress_unit(in_buff@, prev.len())->Ok_0;
                assert(buf@ =~= spec_overwrite(prev, 0, out));
            }
            Ok(n)
        } else if self.block.flags & FILE_IMPLODE != 0 {
            Err(MpqError::Unsupported)
        } else {
            let cnt = if buf.len() <= in_buff.len() {
                buf.len()
            } else {
                in_buff.len()
            };
            copy_into(&in_buff, cnt, buf, 0);
            Ok(self.block.unpacked_size as usize)
        }
    }

    /// Decode one sector into `buf[read..]`; yields the new decoded count.
    #[verifier::rlimit(60)]
    fn read_one_sector(&self, archive: &Archive, buf: &mut Vec<u8>, i: usize, read: usize) -> (r:
        Result<usize, MpqError>)
        requires
            archive.wf(),
            self.wf(archive),
            self@.block.flags & FILE_SINGLE_UNIT == 0,
            self@.block.flags & FILE_COMPRESS_MASK != 0,
            i + 1 < self@.sector_offsets.len(),
            read <= old(buf)@.len(),
        ensures
            final(buf)@.len() == old(buf)@.len(),
            match r {
                Ok(r2) => read <= r2 <= final(buf)@.len() && spec_sector_step(
                    archive.bytes(),
                    archive.model().base,
                    self@,
                    archive.spec_sector_size(),
                    old(buf)@,
                    i as int,
                    read as int,
                ) == Ok::<(Seq<u8>, int), MpqError>((final(buf)@, r2 as int)),
                Err(e) => spec_sector_step(
                    archive.bytes(),
                    archive.model().base,
                    self@,
                    archive.spec_sector_size(),
                    old(buf)@,
                    i as int,
                    read as int,
                ) == Err::<(Seq<u8>, int), MpqError>(e),
            },
    {
        reveal(spec_sector_step);
        let data_len = archive.data.len();
        let base = archive.offset as usize;
        let off0 = self.sector_offsets[i];
        let off1 = self.sector_offsets[i + 1];
        let mut sector = match read_region(
            &archive.data,
            base,
            self.block.offset as u64 + off0 as u64,
            (off1 - off0) as u64,
        ) {
            Ok(v) => v,
            Err(e) => {
                return Err(e);
            },
        };
        if self.block.flags & FILE_ENCRYPTED != 0 {
            archive.crypt.decrypt(&mut sector, self.file_key.wrapping_add(i as u32));
        }
        assert(sector@ == spec_sector_plain(archive.bytes(), base as int, self@, i as int));
        if self.sector_checksums.len() > 0 {
            let stored = self.sector_checksums[i];
            if stored != 0 {
                if adler32(sector.as_slice()) != stored {
                    return Err(MpqError::ChecksumError);
                }
            }
        }
        let len_i = (off1 - off0) as usize;
        let remaining = buf.len() - read;
        if self.block.flags & FILE_COMPRESS != 0 {
            if len_i == archive.sector_size as usize || len_i == remaining {
                let cnt = if len_i <= remaining {
                    len_i
                } else {
                    remaining
                };
                copy_into(&sector, cnt, buf, read);
                Ok(read + cnt)
            } else {
                let ghost prev = buf@;
                let n = match decompress_into(sector.as_slice(), buf, read) {
                    Ok(n) => n,
                    Err(e) => {
                        return Err(e);
                    },
                };
                proof {
                    let out = spec_decompress_unit(sector@, (prev.len() - read) as nat)->Ok_0;
                    assert(buf@ =~= spec_overwrite(prev, read as int, out));
                }
                Ok(read + n)
            }
        } else if self.block.flags & FILE_IMPLODE != 0 {
            if len_i == archive.sector_size as usize || len_i == remaining {
                let cnt = if len_i <= remaining {
                    len_i
                } else {
                    remaining
                };
                copy_into(&sector, cnt, buf, read);
                Ok(read + cnt)
            } else {
                Err(MpqError::Unsupported)
            }
        } else {
            Ok(read)
        }
    }

    /// Decode a sectored, compressed file into `buf`, sector by sector.
    #[verifier::rlimit(60)]
    fn read_sector_file(&self, archive: &Archive, buf: &mut Vec<u8>) -> (r: Result<usize, MpqError>)
        requires
            archive.wf(),
            self.wf(archive),
            self@.block.flags & FILE_SINGLE_UNIT == 0,
            self@.block.flags & FILE_COMPRESS_MASK != 0,
        ensures
            final(buf)@.len() == old(buf)@.len(),
            match r {
                Ok(n) => spec_read_sectors(
                    archive.bytes(),
                    archive.model().base,
                    self@,
                    archive.spec_sector_size(),
                    old(buf)@,
                    0,
                    0,
                ) == Ok::<(Seq<u8>, int), MpqError>((final(buf)@, n as int)),
                Err(e) => spec_read_sectors(
                    archive.bytes(),
                    archive.model().base,
                    self@,
                    archive.spec_sector_size(),
                    old(buf)@,
                    0,
                    0,
                ) == Err::<(Seq<u8>, int), MpqError>(e),
            },
    {
        let ghost buf0 = buf@;
        let count = self.sector_offsets.len();
        let mut read: usize = 0;
        let mut i: usize = 0;
        while i + 1 < count
            invariant
                buf0 == old(buf)@,
                archive.wf(),
                self.wf(archive),
                self@.block.flags & FILE_SINGLE_UNIT == 0,
                self@.block.flags & FILE_COMPRESS_MASK != 0,
                count == self.sector_offsets@.len(),
                i < count,
                read <= buf@.len(),
                buf@.len() == buf0.len(),
                spec_read_sectors(
                    archive.bytes(),
                    archive.model().base,
                    self@,
                    archive.spec_sector_size(),
                    buf0,
                    0,
                    0,
                ) == spec_read_sectors(
                    archive.bytes(),
                    archive.model().base,
                    self@,
                    archive.spec_sector_size(),
                    buf@,
                    i as int,
                    read as int,
                ),
            decreases count - i,
        {
            read = match self.read_one_sector(archive, buf, i, read) {
                Ok(r2) => r2,
                Err(e) => {
                    return Err(e);
                },
            };
            i = i + 1;
        }
        Ok(read)
    }

    /// Decode the file's contents into `buf`: the single-unit or sectored
    /// path per the block's flags; a patch file is refused. Reports how many
    /// bytes were decoded.
    pub fn read(&self, archive: &Archive, buf: &mut Vec<u8>) -> (r: Result<usize, MpqError>)
        requires
            archive.wf(),
            self.wf(archive),
        ensures
            final(buf)@.len() == old(buf)@.len(),
            match r {
                Ok(n) => spec_read(
                    archive.bytes(),
                    archive.model().base,
                    self@,
                    archive.spec_sector_size(),
                    old(buf)@,
                ) == Ok::<(Seq<u8>, int), MpqError>((final(buf)@, n as int)),
                Err(e) => spec_read(
                    archive.bytes(),
                    archive.model().base,
                    self@,
                    archive.spec_sector_size(),
                    old(buf)@,
                ) == Err::<(Seq<u8>, int), MpqError>(e),
            },
    {
        if self.block.flags & FILE_PATCH_FILE != 0 {
            Err(MpqError::Unsupported)
        } else if self.block.flags & FILE_SINGLE_UNIT != 0 {
            self.read_single_unit(archive, buf)
        } else if self.block.flags & FILE_COMPRESS_MASK != 0 {
            self.read_sector_file(archive, buf)
        } else {
            let data_len = archive.data.len();
            let base = archive.offset as usize;
            let n = buf.len();
            let v = match read_region(&archive.data, base, self.block.offset as u64, n as u64) {
                Ok(v) => v,
                Err(e) => {
                    return Err(e);
                },
            };
            *buf = v;
            Ok(n)
        }
    }
}

/// The sector count is the ceiling of the unpacked size over the sector
/// size: zero exactly for the empty file, and otherwise the least count
/// whose sectors cover the file.
pub proof fn lemma_num_sectors_is_ceiling(unpacked: u32, sector_size: u32)
    requires
        sector_size >= 1,
    ensures
        (spec_num_sectors(unpacked, sector_size) == 0) <==> (unpacked == 0),
        unpacked > 0 ==> (spec_num_sectors(unpacked, sector_size) - 1) * sector_size < unpacked,
        unpacked <= spec_num_sectors(unpacked, sector_size) * sector_size,
{
    if unpacked > 0 {
        let x = (unpacked - 1) as int;
        let d = sector_size as int;
        vstd::arithmetic::div_mod::lemma_fundamental_div_mod(x, d);
        vstd::arithmetic::div_mod::lemma_mod_bound(x, d);
        let n = x / d;
        assert((n + 1) * d == n * d + d) by (nonlinear_arith);
        vstd::arithmetic::div_mod::lemma_div_is_ordered(0, x, d);
    }
}

/// Sector-index law: a well-formed file that carries a sector index carries
/// a strictly increasing one, and its terminator is the block's packed size
/// — or bounded by it when a checksum sector follows the index.
pub proof fn lemma_sector_index_monotonic(f: FileModel, sector_size: u32, i: int)
    requires
        spec_file_wf(f, sector_size),
        f.block.flags & FILE_SINGLE_UNIT == 0,
        f.block.flags & FILE_COMPRESS_MASK != 0,
        0 <= i < f.sector_offsets.len() - 1,
    ensures
        f.sector_offsets[i] < f.sector_offsets[i + 1],
        f.sector_offsets[f.sector_offsets.len() - 1] <= f.block.packed_size,
        (f.block.flags & FILE_COMPRESS == 0 || f.block.flags & FILE_SECTOR_CRC == 0)
            ==> f.sector_offsets[f.sector_offsets.len() - 1] == f.block.packed_size,
{
}

/// Decode-size law for stores without compression: a successful read into a
/// buffer of exactly the unpacked size reports exactly the unpacked size.
pub proof fn lemma_read_size_uncompressed(
    data: Seq<u8>,
    base: int,
    f: FileModel,
    sector_size: u32,
    buf: Seq<u8>,
)
    requires
        f.block.flags & FILE_PATCH_FILE == 0,
        f.block.flags & FILE_COMPRESS_MASK == 0,
        buf.len() == f.block.unpacked_size,
        spec_read(data, base, f, sector_size, buf) is Ok,
    ensures
        spec_read(data, base, f, sector_size, buf)->Ok_0.1 == f.block.unpacked_size as int,
{
    let flags = f.block.flags;
    assert(flags & 0x0000FF00u32 == 0 ==> flags & 0x00000200u32 == 0 && flags & 0x00000100u32
        == 0) by (bit_vector);
}

proof fn lemma_read_sectors_checksums(
    data: Seq<u8>,
    base: int,
    f: FileModel,
    sector_size: u32,
    buf: Seq<u8>,
    i: int,
    read: int,
    j: int,
)
    requires
        spec_read_sectors(data, base, f, sector_size, buf, i, read) is Ok,
        0 <= i <= j,
        j + 1 < f.sector_offsets.len(),
        0 <= j < f.sector_checksums.len(),
        f.sector_checksums[j] != 0,
    ensures
        spec_adler32(spec_sector_plain(data, base, f, j)) == f.sector_checksums[j],
    decreases j - i,
{
    reveal(spec_sector_step);
    match spec_sector_step(data, base, f, sector_size, buf, i, read) {
        Err(e) => {
            assert(false);
        },
        Ok(next) => {
            if i < j {
                lemma_read_sectors_checksums(
                    data,
                    base,
                    f,
                    sector_size,
                    next.0,
                    i + 1,
                    next.1,
                    j,
                );
            }
        },
    }
}

/// Adler-32 law: when the sectored read succeeds, the decrypted on-disk
/// bytes of every sector whose stored checksum is armed hash to exactly
/// that stored word.
pub proof fn lemma_read_verifies_checksums(
    data: Seq<u8>,
    base: int,
    f: FileModel,
    sector_size: u32,
    buf: Seq<u8>,
    j: int,
)
    requires
        f.block.flags & FILE_PATCH_FILE == 0,
        f.block.flags & FILE_SINGLE_UNIT == 0,
        f.block.flags & FILE_COMPRESS_MASK != 0,
        spec_read(data, base, f, sector_size, buf) is Ok,
        j + 1 < f.sector_offsets.len(),
        0 <= j < f.sector_checksums.len(),
        f.sector_checksums[j] != 0,
    ensures
        spec_adler32(spec_sector_plain(data, base, f, j)) == f.sector_checksums[j],
{
    lemma_read_sectors_checksums(data, base, f, sector_size, buf, 0, 0, j);
}

} // verus!
