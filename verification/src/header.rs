//! The header of a partition table: what it holds, the 92 bytes that it takes on disk, and the
//! checksums that guard it and the partition entries.

use vstd::prelude::*;
use crate::bytes;
use crate::bytes::{
    append_bytes, decode_array_16, decode_array_4, decode_array_8, decode_u32, decode_u64,
    encode_u32, encode_u64, tail,
};
use crate::checksum;
use crate::disk;
use crate::disk::{DiskWrite, WriteModel};
use crate::error::{Error, ErrorModel};
use crate::fields;
use crate::medium;
use crate::partition;
use crate::partition::{EntryModel, GPTPartitionEntry};

verus! {

/// The number of bytes that a header takes on disk.
pub const HEADER_SIZE: usize = 92;

/// What a header says.
#[verifier::ext_equal]
pub struct HeaderModel {
    pub signature: Seq<u8>,
    pub revision: Seq<u8>,
    pub header_size: u32,
    pub crc32_checksum: u32,
    pub reserved: Seq<u8>,
    pub primary_lba: u64,
    pub backup_lba: u64,
    pub first_usable_lba: u64,
    pub last_usable_lba: u64,
    pub disk_guid: Seq<u8>,
    pub partition_entry_lba: u64,
    pub number_of_partition_entries: u32,
    pub size_of_partition_entry: u32,
    pub partition_entry_array_crc32: u32,
}

/// The signature that every header starts with: "EFI PART".
pub open spec fn gpt_signature() -> Seq<u8> {
    seq![0x45u8, 0x46u8, 0x49u8, 0x20u8, 0x50u8, 0x41u8, 0x52u8, 0x54u8]
}

/// The revision of every header.
pub open spec fn gpt_revision() -> Seq<u8> {
    seq![0u8, 0u8, 1u8, 0u8]
}

/// Whether the byte arrays of a header have the lengths that they have on disk.
pub open spec fn has_arrays(h: HeaderModel) -> bool {
    h.signature.len() == 8 && h.revision.len() == 4 && h.reserved.len() == 4 && h.disk_guid.len()
        == 16
}

/// The bytes of a header up to its LBAs.
pub open spec fn encode_header_start(h: HeaderModel) -> Seq<u8> {
    h.signature + h.revision + bytes::le_bytes(h.header_size as nat, 4) + bytes::le_bytes(
        h.crc32_checksum as nat,
        4,
    ) + h.reserved
}

/// The bytes of the LBAs of a header.
pub open spec fn encode_header_lbas(h: HeaderModel) -> Seq<u8> {
    bytes::le_bytes(h.primary_lba as nat, 8) + bytes::le_bytes(h.backup_lba as nat, 8)
        + bytes::le_bytes(h.first_usable_lba as nat, 8) + bytes::le_bytes(
        h.last_usable_lba as nat,
        8,
    )
}

/// The bytes of a header after its LBAs.
pub open spec fn encode_header_end(h: HeaderModel) -> Seq<u8> {
    h.disk_guid + bytes::le_bytes(h.partition_entry_lba as nat, 8) + bytes::le_bytes(
        h.number_of_partition_entries as nat,
        4,
    ) + bytes::le_bytes(h.size_of_partition_entry as nat, 4) + bytes::le_bytes(
        h.partition_entry_array_crc32 as nat,
        4,
    )
}

/// The 92 bytes of a header.
pub open spec fn encode_header(h: HeaderModel) -> Seq<u8> {
    encode_header_start(h) + encode_header_lbas(h) + encode_header_end(h)
}

/// The header that 92 bytes stand for.
pub open spec fn decode_header(s: Seq<u8>) -> HeaderModel {
    HeaderModel {
        signature: s.subrange(0, 8),
        revision: s.subrange(8, 12),
        header_size: bytes::le_value(s.subrange(12, 16)) as u32,
        crc32_checksum: bytes::le_value(s.subrange(16, 20)) as u32,
        reserved: s.subrange(20, 24),
        primary_lba: bytes::le_value(s.subrange(24, 32)) as u64,
        backup_lba: bytes::le_value(s.subrange(32, 40)) as u64,
        first_usable_lba: bytes::le_value(s.subrange(40, 48)) as u64,
        last_usable_lba: bytes::le_value(s.subrange(48, 56)) as u64,
        disk_guid: s.subrange(56, 72),
        partition_entry_lba: bytes::le_value(s.subrange(72, 80)) as u64,
        number_of_partition_entries: bytes::le_value(s.subrange(80, 84)) as u32,
        size_of_partition_entry: bytes::le_value(s.subrange(84, 88)) as u32,
        partition_entry_array_crc32: bytes::le_value(s.subrange(88, 92)) as u32,
    }
}

/// The checksum that a header should carry: that of its bytes with zero in place of the
/// checksum.
pub open spec fn header_checksum(h: HeaderModel) -> u32 {
    checksum::crc32_ieee(encode_header(HeaderModel { crc32_checksum: 0, ..h }))
}

/// The bytes of some entries, one after the other.
pub open spec fn entries_bytes(entries: Seq<EntryModel>) -> Seq<u8>
    decreases entries.len(),
{
    if entries.len() == 0 {
        Seq::empty()
    } else {
        entries_bytes(entries.drop_last()) + partition::encode_entry(entries.last())
    }
}

/// The checksum that a header should carry of some entries.
pub open spec fn entries_checksum(entries: Seq<EntryModel>) -> u32 {
    checksum::crc32_ieee(entries_bytes(entries))
}

/// Whether some entries take as many bytes, counted in 32 bits, as the header says that the
/// partition array has.
pub open spec fn matches_array_size(h: HeaderModel, count: nat) -> bool {
    let size = h.size_of_partition_entry * h.number_of_partition_entries;
    size <= u32::MAX && (partition::ENTRY_SIZE * count) % 0x1_0000_0000 == size
}

/// The header that is read where some bytes are, or what is wrong with them.
pub open spec fn parse_header(s: Seq<u8>) -> Result<HeaderModel, ErrorModel> {
    let h = decode_header(s);
    if s.len() < HEADER_SIZE {
        Err(ErrorModel::Deserialize)
    } else if h.signature != gpt_signature() {
        Err(ErrorModel::InvalidSignature)
    } else if h.revision != gpt_revision() {
        Err(ErrorModel::InvalidRevision)
    } else if h.header_size != HEADER_SIZE {
        Err(ErrorModel::InvalidHeaderSize)
    } else if h.crc32_checksum != header_checksum(h) {
        Err(ErrorModel::InvalidChecksum(h.crc32_checksum, header_checksum(h)))
    } else {
        Ok(h)
    }
}

/// The number of sectors that the partition array of a header takes.
pub open spec fn array_sectors(h: HeaderModel, sector_size: u64) -> int {
    (h.number_of_partition_entries * h.size_of_partition_entry - 1) / (sector_size as int) + 1
}

/// Whether a header can be fitted to a disk of `len` bytes: the disk has room for the partition
/// array and the two sectors next to it, and the sector after the partition array of a header in
/// the second sector has a number.
pub open spec fn can_update(h: HeaderModel, len: u64, sector_size: u64) -> bool {
    &&& sector_size > 0
    &&& h.number_of_partition_entries > 0
    &&& h.size_of_partition_entry > 0
    &&& array_sectors(h, sector_size) + 2 <= len / sector_size
    &&& h.primary_lba == 1 ==> h.partition_entry_lba + array_sectors(h, sector_size) <= u64::MAX
}

/// A header fitted to a disk of `len` bytes. One of the two headers is in the second sector, the
/// other one in the last. The first usable sector comes after the partition array at the start of
/// the disk: that of the header in the second sector, or, if the header is the one at the end,
/// that of the other one, which is in the third sector. The last usable sector comes before the
/// partition array at the end of the disk.
pub open spec fn updated_header(h: HeaderModel, len: u64, sector_size: u64) -> HeaderModel {
    let sectors = (len / sector_size) as int;
    let array = array_sectors(h, sector_size);
    HeaderModel {
        primary_lba: if h.primary_lba == 1 {
            1
        } else {
            (sectors - 1) as u64
        },
        backup_lba: if h.primary_lba == 1 {
            (sectors - 1) as u64
        } else {
            1
        },
        last_usable_lba: (sectors - array - 2) as u64,
        first_usable_lba: if h.primary_lba == 1 {
            (h.partition_entry_lba + array) as u64
        } else {
            (2 + array) as u64
        },
        ..h
    }
}

/// The header of a new table, before it is fitted to a disk.
pub open spec fn blank_header(disk_guid: Seq<u8>) -> HeaderModel {
    HeaderModel {
        signature: gpt_signature(),
        revision: gpt_revision(),
        header_size: HEADER_SIZE as u32,
        crc32_checksum: 0,
        reserved: Seq::new(4, |i: int| 0u8),
        primary_lba: 1,
        backup_lba: 0,
        first_usable_lba: 0,
        last_usable_lba: 0,
        disk_guid,
        partition_entry_lba: 2,
        number_of_partition_entries: 128,
        size_of_partition_entry: 128,
        partition_entry_array_crc32: 0,
    }
}

/// A header with the two checksums that it should carry, for some entries.
pub open spec fn sealed_header(h: HeaderModel, entries: Seq<EntryModel>) -> HeaderModel {
    let array = HeaderModel { partition_entry_array_crc32: entries_checksum(entries), ..h };
    HeaderModel { crc32_checksum: header_checksum(array), ..array }
}

/// Where a header keeps its partition entry number `i`, counted from zero.
pub open spec fn entry_offset(h: HeaderModel, sector_size: u64, i: int) -> int {
    h.partition_entry_lba * sector_size + i * h.size_of_partition_entry
}

/// The writes that put a header and its entries on disk.
pub open spec fn copy_writes(h: HeaderModel, sector_size: u64, entries: Seq<EntryModel>) -> Seq<
    WriteModel,
> {
    Seq::new(
        1 + h.number_of_partition_entries as nat,
        |i: int|
            if i == 0 {
                WriteModel {
                    offset: (h.primary_lba * sector_size) as nat,
                    bytes: encode_header(h),
                }
            } else {
                WriteModel {
                    offset: entry_offset(h, sector_size, i - 1) as nat,
                    bytes: partition::encode_entry(entries[i - 1]),
                }
            },
    )
}

/// Whether a header can be written with some entries: its size is the one that there is, it says
/// of the entries what they are, and no position on disk is too large.
pub open spec fn can_write(h: HeaderModel, sector_size: u64, entries: Seq<EntryModel>) -> bool {
    &&& h.header_size == HEADER_SIZE
    &&& matches_array_size(h, entries.len())
    &&& h.number_of_partition_entries <= entries.len()
    &&& h.primary_lba * sector_size <= u64::MAX
    &&& h.number_of_partition_entries > 0 ==> entry_offset(
        h,
        sector_size,
        h.number_of_partition_entries - 1,
    ) <= u64::MAX
}

pub proof fn lemma_encode_header_len(h: HeaderModel)
    requires
        has_arrays(h),
    ensures
        encode_header_start(h).len() == 24,
        encode_header_lbas(h).len() == 32,
        encode_header_end(h).len() == 36,
        encode_header(h).len() == HEADER_SIZE,
{
    bytes::lemma_le_bytes_len(h.header_size as nat, 4);
    bytes::lemma_le_bytes_len(h.crc32_checksum as nat, 4);
    bytes::lemma_le_bytes_len(h.primary_lba as nat, 8);
    bytes::lemma_le_bytes_len(h.backup_lba as nat, 8);
    bytes::lemma_le_bytes_len(h.first_usable_lba as nat, 8);
    bytes::lemma_le_bytes_len(h.last_usable_lba as nat, 8);
    bytes::lemma_le_bytes_len(h.partition_entry_lba as nat, 8);
    bytes::lemma_le_bytes_len(h.number_of_partition_entries as nat, 4);
    bytes::lemma_le_bytes_len(h.size_of_partition_entry as nat, 4);
    bytes::lemma_le_bytes_len(h.partition_entry_array_crc32 as nat, 4);
}

proof fn lemma_u32_round_trip(v: u32)
    ensures
        bytes::le_bytes(v as nat, 4).len() == 4,
        bytes::le_value(bytes::le_bytes(v as nat, 4)) == v,
{
    bytes::lemma_byte_ranges();
    bytes::lemma_le_bytes_len(v as nat, 4);
    bytes::lemma_le_value_of_bytes(v as nat, 4);
}

proof fn lemma_u64_round_trip(v: u64)
    ensures
        bytes::le_bytes(v as nat, 8).len() == 8,
        bytes::le_value(bytes::le_bytes(v as nat, 8)) == v,
{
    bytes::lemma_byte_ranges();
    bytes::lemma_le_bytes_len(v as nat, 8);
    bytes::lemma_le_value_of_bytes(v as nat, 8);
}

/// The bytes of a header stand for that header.
pub proof fn law_header_round_trip(h: HeaderModel)
    requires
        has_arrays(h),
    ensures
        encode_header(h).len() == HEADER_SIZE,
        decode_header(encode_header(h)) == h,
{
    let s = encode_header(h);
    lemma_encode_header_len(h);
    lemma_u32_round_trip(h.header_size);
    lemma_u32_round_trip(h.crc32_checksum);
    lemma_u64_round_trip(h.primary_lba);
    lemma_u64_round_trip(h.backup_lba);
    lemma_u64_round_trip(h.first_usable_lba);
    lemma_u64_round_trip(h.last_usable_lba);
    lemma_u64_round_trip(h.partition_entry_lba);
    lemma_u32_round_trip(h.number_of_partition_entries);
    lemma_u32_round_trip(h.size_of_partition_entry);
    lemma_u32_round_trip(h.partition_entry_array_crc32);
    assert(s.subrange(0, 8) =~= h.signature);
    assert(s.subrange(8, 12) =~= h.revision);
    assert(s.subrange(12, 16) =~= bytes::le_bytes(h.header_size as nat, 4));
    assert(s.subrange(16, 20) =~= bytes::le_bytes(h.crc32_checksum as nat, 4));
    assert(s.subrange(20, 24) =~= h.reserved);
    assert(s.subrange(24, 32) =~= bytes::le_bytes(h.primary_lba as nat, 8));
    assert(s.subrange(32, 40) =~= bytes::le_bytes(h.backup_lba as nat, 8));
    assert(s.subrange(40, 48) =~= bytes::le_bytes(h.first_usable_lba as nat, 8));
    assert(s.subrange(48, 56) =~= bytes::le_bytes(h.last_usable_lba as nat, 8));
    assert(s.subrange(56, 72) =~= h.disk_guid);
    assert(s.subrange(72, 80) =~= bytes::le_bytes(h.partition_entry_lba as nat, 8));
    assert(s.subrange(80, 84) =~= bytes::le_bytes(h.number_of_partition_entries as nat, 4));
    assert(s.subrange(84, 88) =~= bytes::le_bytes(h.size_of_partition_entry as nat, 4));
    assert(s.subrange(88, 92) =~= bytes::le_bytes(h.partition_entry_array_crc32 as nat, 4));
    assert(decode_header(s) =~= h);
}

proof fn lemma_u32_bytes(s: Seq<u8>)
    requires
        s.len() == 4,
    ensures
        bytes::le_bytes((bytes::le_value(s) as u32) as nat, 4) == s,
{
    bytes::lemma_byte_ranges();
    bytes::lemma_le_bytes_of_value(s);
}

proof fn lemma_u64_bytes(s: Seq<u8>)
    requires
        s.len() == 8,
    ensures
        bytes::le_bytes((bytes::le_value(s) as u64) as nat, 8) == s,
{
    bytes::lemma_byte_ranges();
    bytes::lemma_le_bytes_of_value(s);
}

/// The header that some bytes stand for has those bytes.
pub proof fn law_header_bytes_are_kept(s: Seq<u8>)
    requires
        s.len() == HEADER_SIZE,
    ensures
        has_arrays(decode_header(s)),
        encode_header(decode_header(s)) == s,
{
    let h = decode_header(s);
    lemma_u32_bytes(s.subrange(12, 16));
    lemma_u32_bytes(s.subrange(16, 20));
    lemma_u64_bytes(s.subrange(24, 32));
    lemma_u64_bytes(s.subrange(32, 40));
    lemma_u64_bytes(s.subrange(40, 48));
    lemma_u64_bytes(s.subrange(48, 56));
    lemma_u64_bytes(s.subrange(72, 80));
    lemma_u32_bytes(s.subrange(80, 84));
    lemma_u32_bytes(s.subrange(84, 88));
    lemma_u32_bytes(s.subrange(88, 92));
    assert(encode_header_start(h) =~= s.subrange(0, 24));
    assert(encode_header_lbas(h) =~= s.subrange(24, 56));
    assert(encode_header_end(h) =~= s.subrange(56, 92));
    assert(encode_header(h) =~= s);
}

/// A header with the signature, the revision and the size that headers have is accepted where it
/// was written with the checksum that it should carry.
pub proof fn law_sealed_header_is_accepted(h: HeaderModel, entries: Seq<EntryModel>)
    requires
        has_arrays(h),
        h.signature == gpt_signature(),
        h.revision == gpt_revision(),
        h.header_size == HEADER_SIZE,
    ensures
        parse_header(encode_header(sealed_header(h, entries))) == Ok::<HeaderModel, ErrorModel>(
            sealed_header(h, entries),
        ),
{
    let sealed = sealed_header(h, entries);
    law_header_round_trip(sealed);
    let array = HeaderModel { partition_entry_array_crc32: entries_checksum(entries), ..h };
    assert(HeaderModel { crc32_checksum: 0, ..sealed } =~= HeaderModel {
        crc32_checksum: 0,
        ..array
    });
}

/// A GUID Partition Table header as described on
/// [Wikipedia's page](https://en.wikipedia.org/wiki/GUID_Partition_Table#Partition_table_header_(LBA_1)).
#[derive(Debug, Clone, Copy)]
pub struct GPTHeader {
    /// GPT signature (must be "EFI PART").
    pub signature: [u8; 8],
    /// GPT revision (must be 00 00 01 00).
    pub revision: [u8; 4],
    /// GPT header size (must be 92).
    pub header_size: u32,
    /// CRC32 checksum of the header.
    pub crc32_checksum: u32,
    /// Reserved bytes of the header.
    pub reserved: [u8; 4],
    /// Location (in sectors) of the primary header.
    pub primary_lba: u64,
    /// Location (in sectors) of the backup header.
    pub backup_lba: u64,
    /// Location (in sectors) of the first usable sector.
    pub first_usable_lba: u64,
    /// Location (in sectors) of the last usable sector.
    pub last_usable_lba: u64,
    /// 16 bytes representing the UUID of the GPT.
    pub disk_guid: [u8; 16],
    /// Location (in sectors) of the partition entries array.
    pub partition_entry_lba: u64,
    /// Number of partition entries in the array.
    pub number_of_partition_entries: u32,
    /// Size (in bytes) of a partition entry.
    pub size_of_partition_entry: u32,
    /// CRC32 checksum of the partition array.
    pub partition_entry_array_crc32: u32,
}

impl View for GPTHeader {
    type V = HeaderModel;

    open spec fn view(&self) -> HeaderModel {
        HeaderModel {
            signature: self.signature@,
            revision: self.revision@,
            header_size: self.header_size,
            crc32_checksum: self.crc32_checksum,
            reserved: self.reserved@,
            primary_lba: self.primary_lba,
            backup_lba: self.backup_lba,
            first_usable_lba: self.first_usable_lba,
            last_usable_lba: self.last_usable_lba,
            disk_guid: self.disk_guid@,
            partition_entry_lba: self.partition_entry_lba,
            number_of_partition_entries: self.number_of_partition_entries,
            size_of_partition_entry: self.size_of_partition_entry,
            partition_entry_array_crc32: self.partition_entry_array_crc32,
        }
    }
}

/// Whether a slice holds the given bytes.
fn same_bytes(a: &[u8], b: &[u8]) -> (r: bool)
    ensures
        r == (a@ == b@),
{
    if a.len() != b.len() {
        return false;
    }
    let mut i: usize = 0;
    while i < a.len()
        invariant
            i <= a@.len(),
            a@.len() == b@.len(),
            forall|j: int| 0 <= j < i ==> a@[j] == b@[j],
        decreases a@.len() - i,
    {
        if a[i] != b[i] {
            return false;
        }
        i = i + 1;
    }
    assert(a@ =~= b@);
    true
}

impl GPTHeader {
    /// Makes a new GPT header for a disk of `len` bytes. (This operation does not write anything
    /// to disk!)
    pub fn new_from(len: u64, sector_size: u64, disk_guid: [u8; 16]) -> (r: GPTHeader)
        requires
            can_update(blank_header(disk_guid@), len, sector_size),
        ensures
            r@ == updated_header(blank_header(disk_guid@), len, sector_size),
    {
        let mut gpt = GPTHeader::blank(disk_guid);
        gpt.update_from(len, sector_size);
        gpt
    }

    /// The header of a new table, before it is fitted to a disk.
    pub fn blank(disk_guid: [u8; 16]) -> (r: GPTHeader)
        ensures
            r@ == blank_header(disk_guid@),
    {
        let gpt = GPTHeader {
            signature: [0x45, 0x46, 0x49, 0x20, 0x50, 0x41, 0x52, 0x54],
            revision: [0x00, 0x00, 0x01, 0x00],
            header_size: 92,
            crc32_checksum: 0,
            reserved: [0; 4],
            primary_lba: 1,
            backup_lba: 0,
            first_usable_lba: 0,
            last_usable_lba: 0,
            disk_guid,
            partition_entry_lba: 2,
            number_of_partition_entries: 128,
            size_of_partition_entry: 128,
            partition_entry_array_crc32: 0,
        };
        assert(gpt@ =~= blank_header(disk_guid@));
        gpt
    }

    /// Decodes the bytes at the current position of a reader, without looking at what they say.
    /// What follows the first 92 bytes is left alone; with fewer there is no header.
    pub fn from_bytes(bytes: &[u8]) -> (r: Result<GPTHeader, bincode::Error>)
        ensures
            r is Ok <==> bytes@.len() >= HEADER_SIZE,
            r matches Ok(h) ==> h@ == decode_header(bytes@),
            r matches Ok(h) ==> medium::shows_header(bytes@, 0, h@),
    {
        let h = GPTHeader {
            signature: decode_array_8(bytes)?,
            revision: decode_array_4(tail(bytes, 8))?,
            header_size: decode_u32(tail(bytes, 12))?,
            crc32_checksum: decode_u32(tail(bytes, 16))?,
            reserved: decode_array_4(tail(bytes, 20))?,
            primary_lba: decode_u64(tail(bytes, 24))?,
            backup_lba: decode_u64(tail(bytes, 32))?,
            first_usable_lba: decode_u64(tail(bytes, 40))?,
            last_usable_lba: decode_u64(tail(bytes, 48))?,
            disk_guid: decode_array_16(tail(bytes, 56))?,
            partition_entry_lba: decode_u64(tail(bytes, 72))?,
            number_of_partition_entries: decode_u32(tail(bytes, 80))?,
            size_of_partition_entry: decode_u32(tail(bytes, 84))?,
            partition_entry_array_crc32: decode_u32(tail(bytes, 88))?,
        };
        proof {
            let s = bytes@;
            assert(s.take(8) =~= s.subrange(0, 8));
            assert(bytes::tail_at(s, 8).take(4) =~= s.subrange(8, 12));
            assert(bytes::tail_at(s, 12).take(4) =~= s.subrange(12, 16));
            assert(bytes::tail_at(s, 16).take(4) =~= s.subrange(16, 20));
            assert(bytes::tail_at(s, 20).take(4) =~= s.subrange(20, 24));
            assert(bytes::tail_at(s, 24).take(8) =~= s.subrange(24, 32));
            assert(bytes::tail_at(s, 32).take(8) =~= s.subrange(32, 40));
            assert(bytes::tail_at(s, 40).take(8) =~= s.subrange(40, 48));
            assert(bytes::tail_at(s, 48).take(8) =~= s.subrange(48, 56));
            assert(bytes::tail_at(s, 56).take(16) =~= s.subrange(56, 72));
            assert(bytes::tail_at(s, 72).take(8) =~= s.subrange(72, 80));
            assert(bytes::tail_at(s, 80).take(4) =~= s.subrange(80, 84));
            assert(bytes::tail_at(s, 84).take(4) =~= s.subrange(84, 88));
            assert(bytes::tail_at(s, 88).take(4) =~= s.subrange(88, 92));
            assert(h@ =~= decode_header(s));
            medium::lemma_decoded_header(s);
        }
        Ok(h)
    }

    /// Attempts to read a GPT header from the bytes at the current position of a reader.
    pub fn read_from(bytes: &[u8]) -> (r: Result<GPTHeader, Error>)
        ensures
            match r {
                Ok(h) => parse_header(bytes@) == Ok::<HeaderModel, ErrorModel>(h@)
                    && medium::shows_header(bytes@, 0, h@),
                Err(e) => parse_header(bytes@) == Err::<HeaderModel, ErrorModel>(e@),
            },
    {
        let gpt = match GPTHeader::from_bytes(bytes) {
            Ok(h) => h,
            Err(e) => return Err(Error::from(e)),
        };
        let signature: [u8; 8] = [0x45, 0x46, 0x49, 0x20, 0x50, 0x41, 0x52, 0x54];
        assert(signature@ =~= gpt_signature());
        if !same_bytes(&gpt.signature, &signature) {
            return Err(Error::InvalidSignature);
        }
        let revision: [u8; 4] = [0x00, 0x00, 0x01, 0x00];
        assert(revision@ =~= gpt_revision());
        if !same_bytes(&gpt.revision, &revision) {
            return Err(Error::InvalidRevision);
        }
        if gpt.header_size != 92 {
            return Err(Error::InvalidHeaderSize);
        }
        let sum = gpt.generate_crc32_checksum();
        if gpt.crc32_checksum != sum {
            return Err(Error::InvalidChecksum(gpt.crc32_checksum, sum));
        }
        Ok(gpt)
    }

    /// The 92 bytes that the header takes on disk.
    pub fn to_bytes(&self) -> (r: Vec<u8>)
        ensures
            r@ == encode_header(self@),
            r@.len() == HEADER_SIZE,
            medium::shows_header(r@, 0, self@),
    {
        let mut out: Vec<u8> = Vec::new();
        append_bytes(&mut out, &self.signature);
        append_bytes(&mut out, &self.revision);
        append_bytes(&mut out, encode_u32(self.header_size).as_slice());
        append_bytes(&mut out, encode_u32(self.crc32_checksum).as_slice());
        append_bytes(&mut out, &self.reserved);
        assert(out@ =~= encode_header_start(self@));
        let mut lbas: Vec<u8> = Vec::new();
        append_bytes(&mut lbas, encode_u64(self.primary_lba).as_slice());
        append_bytes(&mut lbas, encode_u64(self.backup_lba).as_slice());
        append_bytes(&mut lbas, encode_u64(self.first_usable_lba).as_slice());
        append_bytes(&mut lbas, encode_u64(self.last_usable_lba).as_slice());
        assert(lbas@ =~= encode_header_lbas(self@));
        let mut end: Vec<u8> = Vec::new();
        append_bytes(&mut end, &self.disk_guid);
        append_bytes(&mut end, encode_u64(self.partition_entry_lba).as_slice());
        append_bytes(&mut end, encode_u32(self.number_of_partition_entries).as_slice());
        append_bytes(&mut end, encode_u32(self.size_of_partition_entry).as_slice());
        append_bytes(&mut end, encode_u32(self.partition_entry_array_crc32).as_slice());
        assert(end@ =~= encode_header_end(self@));
        append_bytes(&mut out, lbas.as_slice());
        append_bytes(&mut out, end.as_slice());
        proof {
            lemma_encode_header_len(self@);
            medium::lemma_encoded_header(self@);
        }
        out
    }

    /// The writes that put the header and its partition entries on disk. This operation will
    /// update the CRC32 checksums of the current struct.
    pub fn plan_write(&mut self, sector_size: u64, partitions: &[GPTPartitionEntry]) -> (r: Vec<
        DiskWrite,
    >)
        requires
            can_write(old(self)@, sector_size, partition::entry_models(partitions@)),
        ensures
            final(self)@ == sealed_header(old(self)@, partition::entry_models(partitions@)),
            disk::write_models(r@) == copy_writes(
                final(self)@,
                sector_size,
                partition::entry_models(partitions@),
            ),
    {
        let ghost entries = partition::entry_models(partitions@);
        self.update_partition_entry_array_crc32(partitions);
        self.update_crc32_checksum();
        let ghost h = self@;
        let ghost all = copy_writes(h, sector_size, entries);
        let mut writes: Vec<DiskWrite> = Vec::new();
        writes.push(DiskWrite { offset: self.primary_lba * sector_size, bytes: self.to_bytes() });
        assert(disk::write_models(writes@) =~= all.take(1));
        let mut i: u32 = 0;
        while i < self.number_of_partition_entries
            invariant
                i <= self.number_of_partition_entries <= partitions@.len(),
                self@ == h,
                entries == partition::entry_models(partitions@),
                all == copy_writes(h, sector_size, entries),
                self.number_of_partition_entries > 0 ==> entry_offset(
                    h,
                    sector_size,
                    self.number_of_partition_entries - 1,
                ) <= u64::MAX,
                disk::write_models(writes@) == all.take(i + 1),
            decreases self.number_of_partition_entries - i,
        {
            proof {
                lemma_entry_offset_bound(
                    h,
                    sector_size,
                    i as int,
                    self.number_of_partition_entries - 1,
                );
            }
            let offset = self.partition_entry_lba * sector_size + (i as u64) * (
            self.size_of_partition_entry as u64);
            let bytes = partitions[i as usize].to_bytes();
            assert(entries[i as int] == partitions@[i as int]@);
            let ghost before = writes@;
            let w = DiskWrite { offset, bytes };
            assert(offset == entry_offset(h, sector_size, i as int));
            assert(w@ == all[i + 1]);
            writes.push(w);
            assert(disk::write_models(writes@) =~= disk::write_models(before).push(w@));
            assert(all.take(i + 2) =~= all.take(i + 1).push(all[i + 1]));
            i = i + 1;
        }
        assert(all.take(i + 1) =~= all);
        writes
    }

    /// Writes the GPT header and its partition entries into a disk in memory. This operation
    /// will update the CRC32 checksums of the current struct.
    pub fn write_into(
        &mut self,
        disk: &mut Vec<u8>,
        sector_size: u64,
        partitions: &[GPTPartitionEntry],
    )
        requires
            can_write(old(self)@, sector_size, partition::entry_models(partitions@)),
            disk::writes_fit(
                copy_writes(old(self)@, sector_size, partition::entry_models(partitions@)),
            ),
        ensures
            final(self)@ == sealed_header(old(self)@, partition::entry_models(partitions@)),
            final(disk)@ == disk::apply_writes(
                old(disk)@,
                copy_writes(final(self)@, sector_size, partition::entry_models(partitions@)),
            ),
    {
        let writes = self.plan_write(sector_size, partitions);
        proof {
            let entries = partition::entry_models(partitions@);
            lemma_encode_header_len(old(self)@);
            lemma_encode_header_len(self@);
            let before = copy_writes(old(self)@, sector_size, entries);
            let after = copy_writes(self@, sector_size, entries);
            assert forall|i: int| 0 <= i < after.len() implies (#[trigger] after[i]).offset
                + after[i].bytes.len() <= usize::MAX by {
                assert(before[i].offset + before[i].bytes.len() <= usize::MAX);
            }
        }
        disk::write_all(disk, &writes);
    }

    /// Generates the CRC32 checksum of the partition header only.
    pub fn generate_crc32_checksum(&self) -> (r: u32)
        requires
            self.header_size == HEADER_SIZE,
        ensures
            r == header_checksum(self@),
            r == fields::sum_of_header(encode_header(self@)),
    {
        proof {
            fields::law_header_sum(self@);
        }
        let mut clone = self.clone();
        clone.crc32_checksum = 0;
        let data = clone.to_bytes();
        assert(clone@ =~= HeaderModel { crc32_checksum: 0, ..self@ });
        checksum::checksum_ieee(data.as_slice())
    }

    /// Updates the CRC32 checksum of this header.
    pub fn update_crc32_checksum(&mut self)
        requires
            old(self).header_size == HEADER_SIZE,
        ensures
            final(self)@ == (HeaderModel {
                crc32_checksum: header_checksum(old(self)@),
                ..old(self)@
            }),
    {
        self.crc32_checksum = self.generate_crc32_checksum();
    }

    /// Generates the CRC32 checksum of the partition entry array.
    pub fn generate_partition_entry_array_crc32(&self, partitions: &[GPTPartitionEntry]) -> (r: u32)
        requires
            matches_array_size(self@, partitions@.len()),
        ensures
            r == entries_checksum(partition::entry_models(partitions@)),
    {
        let ghost entries = partition::entry_models(partitions@);
        let mut digest = checksum::digest_new();
        let mut i: usize = 0;
        assert(entries.take(0).len() == 0);
        while i < partitions.len()
            invariant
                i <= partitions@.len(),
                entries == partition::entry_models(partitions@),
                checksum::digested(digest) == entries_bytes(entries.take(i as int)),
            decreases partitions@.len() - i,
        {
            let data = partitions[i].to_bytes();
            checksum::digest_write(&mut digest, data.as_slice());
            assert(entries.take(i + 1).drop_last() =~= entries.take(i as int));
            assert(entries.take(i + 1).last() == partitions@[i as int]@);
            i = i + 1;
        }
        assert(entries.take(i as int) =~= entries);
        checksum::digest_sum32(&digest)
    }

    /// Updates the CRC32 checksum of the partition entry array.
    pub fn update_partition_entry_array_crc32(&mut self, partitions: &[GPTPartitionEntry])
        requires
            matches_array_size(old(self)@, partitions@.len()),
        ensures
            final(self)@ == (HeaderModel {
                partition_entry_array_crc32: entries_checksum(
                    partition::entry_models(partitions@),
                ),
                ..old(self)@
            }),
    {
        self.partition_entry_array_crc32 = self.generate_partition_entry_array_crc32(partitions);
    }

    /// Whether the header can be updated to match a disk of `len` bytes.
    pub fn can_update_from(&self, len: u64, sector_size: u64) -> (r: bool)
        ensures
            r == can_update(self@, len, sector_size),
    {
        let number: u64 = self.number_of_partition_entries as u64;
        let size: u64 = self.size_of_partition_entry as u64;
        if sector_size == 0 || number == 0 || size == 0 {
            return false;
        }
        proof {
            assert(0 < number * size <= 0xFFFF_FFFF * 0xFFFF_FFFF) by (nonlinear_arith)
                requires
                    0 < number <= 0xFFFF_FFFF,
                    0 < size <= 0xFFFF_FFFF,
            ;
        }
        let array: u64 = (number * size - 1) / sector_size;
        assert(array == array_sectors(self@, sector_size) - 1);
        let sectors: u64 = len / sector_size;
        sectors >= 3 && array <= sectors - 3 && (self.primary_lba != 1 || self.partition_entry_lba
            < u64::MAX - array)
    }

    /// Whether the header can be written with some entries.
    pub fn can_write_into(&self, sector_size: u64, partitions: &[GPTPartitionEntry]) -> (r: bool)
        ensures
            r == can_write(self@, sector_size, partition::entry_models(partitions@)),
    {
        let count: usize = partitions.len();
        if self.header_size != 92 || !self.has_array_size(count) {
            return false;
        }
        if (count as u64) < (self.number_of_partition_entries as u64) {
            return false;
        }
        if self.primary_lba.checked_mul(sector_size).is_none() {
            return false;
        }
        self.number_of_partition_entries == 0 || self.entry_position(
            sector_size,
            self.number_of_partition_entries - 1,
        ).is_some()
    }

    /// Where the header keeps its partition entry number `i`, counted from zero, if the position
    /// is not too large.
    pub(crate) fn entry_position(&self, sector_size: u64, i: u32) -> (r: Option<u64>)
        ensures
            match r {
                Some(offset) => offset == entry_offset(self@, sector_size, i as int),
                None => entry_offset(self@, sector_size, i as int) > u64::MAX,
            },
    {
        let size: u32 = self.size_of_partition_entry;
        proof {
            lemma_entry_offset_bound(self@, sector_size, i as int, i as int);
            assert(i * size <= 0xFFFF_FFFF * 0xFFFF_FFFF) by (nonlinear_arith)
                requires
                    0 <= i <= 0xFFFF_FFFF,
                    0 <= size <= 0xFFFF_FFFF,
            ;
        }
        let start: u64 = match self.partition_entry_lba.checked_mul(sector_size) {
            Some(start) => start,
            None => return None,
        };
        start.checked_add((i as u64) * (size as u64))
    }

    /// Whether the header says of `count` entries how many bytes they take.
    pub(crate) fn has_array_size(&self, count: usize) -> (r: bool)
        ensures
            r == matches_array_size(self@, count as nat),
    {
        let number: u64 = self.number_of_partition_entries as u64;
        let size: u64 = self.size_of_partition_entry as u64;
        proof {
            assert(0 <= number * size <= 0xFFFF_FFFF * 0xFFFF_FFFF) by (nonlinear_arith)
                requires
                    0 <= number <= 0xFFFF_FFFF,
                    0 <= size <= 0xFFFF_FFFF,
            ;
            assert(size * number == number * size) by (nonlinear_arith);
        }
        let total: u64 = number * size;
        let wrote: u128 = (count as u128) * 128;
        total <= 0xFFFF_FFFF && wrote % 0x1_0000_0000 == total as u128
    }

    /// Updates the header to match a disk of `len` bytes. `first_usable_lba`, `last_usable_lba`,
    /// `primary_lba`, `backup_lba` will be updated after this operation.
    pub fn update_from(&mut self, len: u64, sector_size: u64)
        requires
            can_update(old(self)@, len, sector_size),
        ensures
            final(self)@ == updated_header(old(self)@, len, sector_size),
    {
        let number: u64 = self.number_of_partition_entries as u64;
        let size: u64 = self.size_of_partition_entry as u64;
        proof {
            assert(0 < number * size <= 0xFFFF_FFFF * 0xFFFF_FFFF) by (nonlinear_arith)
                requires
                    0 < number <= 0xFFFF_FFFF,
                    0 < size <= 0xFFFF_FFFF,
            ;
        }
        let partition_array_size = (number * size - 1) / sector_size + 1;
        let sectors = len / sector_size;
        if self.primary_lba == 1 {
            self.backup_lba = sectors - 1;
            self.first_usable_lba = self.partition_entry_lba + partition_array_size;
        } else {
            self.primary_lba = sectors - 1;
            self.backup_lba = 1;
            self.first_usable_lba = 2 + partition_array_size;
        }
        self.last_usable_lba = sectors - partition_array_size - 1 - 1;
    }
}

/// The partition array takes a sector at least, and it has room in the sectors that it takes.
pub proof fn lemma_array_sectors(h: HeaderModel, sector_size: u64)
    requires
        sector_size > 0,
        h.number_of_partition_entries > 0,
        h.size_of_partition_entry > 0,
    ensures
        1 <= array_sectors(h, sector_size),
        h.number_of_partition_entries * h.size_of_partition_entry <= array_sectors(h, sector_size)
            * sector_size,
{
    let size = h.number_of_partition_entries * h.size_of_partition_entry;
    let ss = sector_size as int;
    let q = (size - 1) / ss;
    assert(size >= 1) by (nonlinear_arith)
        requires
            size == h.number_of_partition_entries * h.size_of_partition_entry,
            h.number_of_partition_entries > 0,
            h.size_of_partition_entry > 0,
    ;
    vstd::arithmetic::div_mod::lemma_fundamental_div_mod(size - 1, ss);
    vstd::arithmetic::div_mod::lemma_mod_bound(size - 1, ss);
    vstd::arithmetic::div_mod::lemma_div_pos_is_pos(size - 1, ss);
    assert((q + 1) * ss == ss * q + ss) by (nonlinear_arith);
}

/// A header that says of its own number of entries how many bytes they take says so of each of
/// them.
pub proof fn lemma_entries_have_their_size(h: HeaderModel)
    requires
        h.number_of_partition_entries > 0,
        h.size_of_partition_entry > 0,
        matches_array_size(h, h.number_of_partition_entries as nat),
    ensures
        h.size_of_partition_entry == partition::ENTRY_SIZE,
{
    let n = h.number_of_partition_entries as u64;
    let s = h.size_of_partition_entry as u64;
    assert(s == 128) by (bit_vector)
        requires
            0 < n <= 0xFFFF_FFFF,
            0 < s <= 0xFFFF_FFFF,
            s * n <= 0xFFFF_FFFF,
            (128 * n) % 0x1_0000_0000 == s * n,
    ;
}

/// Entries come one after the other.
pub proof fn lemma_entry_offset_bound(h: HeaderModel, sector_size: u64, i: int, j: int)
    requires
        0 <= i <= j,
    ensures
        0 <= h.partition_entry_lba * sector_size <= entry_offset(h, sector_size, i),
        0 <= i * h.size_of_partition_entry <= entry_offset(h, sector_size, i),
        entry_offset(h, sector_size, i) <= entry_offset(h, sector_size, j),
{
    let lba = h.partition_entry_lba as int;
    let size = h.size_of_partition_entry as int;
    assert(0 <= i * size <= j * size) by (nonlinear_arith)
        requires
            0 <= i <= j,
            0 <= size,
    ;
    assert(0 <= lba * sector_size) by (nonlinear_arith)
        requires
            0 <= lba,
            0 <= sector_size,
    ;
}

} // verus!
