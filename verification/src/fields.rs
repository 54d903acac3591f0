//! Where everything is in the bytes of a header and of a partition entry, position by position.

use vstd::prelude::*;
use crate::bytes;
use crate::checksum;
use crate::error;
use crate::error::ErrorModel;
use crate::header;
use crate::header::{GPTHeader, HeaderModel};
use crate::partition;
use crate::partition::{EntryModel, GPTPartitionEntry};
use crate::utf16;

verus! {

/// The number in two bytes, the first of which counts least.
pub open spec fn u16_at(s: Seq<u8>, i: int) -> int {
    s[i] + 0x100 * s[i + 1]
}

/// The number in four bytes, the first of which counts least.
pub open spec fn u32_at(s: Seq<u8>, i: int) -> int {
    u16_at(s, i) + 0x1_0000 * u16_at(s, i + 2)
}

/// The number in eight bytes, the first of which counts least.
pub open spec fn u64_at(s: Seq<u8>, i: int) -> int {
    u32_at(s, i) + 0x1_0000_0000 * u32_at(s, i + 4)
}

proof fn lemma_value_2(s: Seq<u8>)
    requires
        s.len() == 2,
    ensures
        bytes::le_value(s) == u16_at(s, 0),
{
    reveal_with_fuel(bytes::le_value, 3);
}

proof fn lemma_value_4(s: Seq<u8>)
    requires
        s.len() == 4,
    ensures
        bytes::le_value(s) == u32_at(s, 0),
{
    reveal_with_fuel(bytes::le_value, 5);
}

proof fn lemma_value_8(s: Seq<u8>)
    requires
        s.len() == 8,
    ensures
        bytes::le_value(s) == u64_at(s, 0),
{
    reveal_with_fuel(bytes::le_value, 9);
}

proof fn lemma_bytes_8(v: u64)
    ensures
        bytes::le_bytes(v as nat, 8).len() == 8,
        u64_at(bytes::le_bytes(v as nat, 8), 0) == v,
{
    bytes::lemma_byte_ranges();
    bytes::lemma_le_bytes_len(v as nat, 8);
    bytes::lemma_le_value_of_bytes(v as nat, 8);
    lemma_value_8(bytes::le_bytes(v as nat, 8));
}

/// Some bytes are at a position in others.
spec fn is_at(part: Seq<u8>, s: Seq<u8>, at: int) -> bool {
    0 <= at && at + part.len() <= s.len() && (forall|i: int|
        0 <= i < part.len() ==> #[trigger] s[at + i] == part[i])
}

proof fn lemma_u64_is_at(v: u64, s: Seq<u8>, at: int)
    requires
        is_at(bytes::le_bytes(v as nat, 8), s, at),
    ensures
        u64_at(s, at) == v,
{
    let p = bytes::le_bytes(v as nat, 8);
    lemma_bytes_8(v);
    assert(s[at + 0] == p[0] && s[at + 1] == p[1] && s[at + 2] == p[2] && s[at + 3] == p[3]);
    assert(s[at + 4] == p[4] && s[at + 5] == p[5] && s[at + 6] == p[6] && s[at + 7] == p[7]);
}

proof fn lemma_u32_of(s: Seq<u8>, at: int)
    requires
        0 <= at,
        at + 4 <= s.len(),
    ensures
        bytes::le_value(s.subrange(at, at + 4)) == u32_at(s, at),
        0 <= u32_at(s, at) <= u32::MAX,
{
    lemma_value_4(s.subrange(at, at + 4));
}

proof fn lemma_u64_of(s: Seq<u8>, at: int)
    requires
        0 <= at,
        at + 8 <= s.len(),
    ensures
        bytes::le_value(s.subrange(at, at + 8)) == u64_at(s, at),
        0 <= u64_at(s, at) <= u64::MAX,
{
    lemma_value_8(s.subrange(at, at + 8));
}

/// What an entry that is read from some bytes says: its type GUID is the first 16 bytes as they
/// are, its own GUID the next 16, and then come the first LBA, the last LBA and the attributes.
pub proof fn law_entry_fields(s: Seq<u8>)
    requires
        s.len() >= 128,
    ensures
        ({
            let e = partition::decode_entry(s);
            &&& e.partition_type_guid.len() == 16
            &&& e.unique_parition_guid.len() == 16
            &&& forall|i: int| 0 <= i < 16 ==> #[trigger] e.partition_type_guid[i] == s[i]
            &&& forall|i: int| 0 <= i < 16 ==> #[trigger] e.unique_parition_guid[i] == s[16 + i]
            &&& e.starting_lba == u64_at(s, 32)
            &&& e.ending_lba == u64_at(s, 40)
            &&& e.attribute_bits == u64_at(s, 48)
        }),
{
    lemma_u64_of(s, 32);
    lemma_u64_of(s, 40);
    lemma_u64_of(s, 48);
}

/// The name of an entry that is read from some bytes is the text of the code units from byte 56
/// on, up to the first zero or to the end of the 36 of them.
pub proof fn law_entry_name(s: Seq<u8>, n: int)
    requires
        s.len() >= 128,
        0 <= n <= 36,
        forall|i: int| 0 <= i < n ==> #[trigger] u16_at(s, 56 + 2 * i) != 0,
        n < 36 ==> u16_at(s, 56 + 2 * n) == 0,
    ensures
        partition::decode_entry(s).partition_name == utf16::utf16_decode_lossy(
            Seq::new(n as nat, |i: int| u16_at(s, 56 + 2 * i) as u16),
        ),
{
    let name = s.subrange(56, 128);
    let u = partition::bytes_units(name);
    let v = Seq::new(n as nat, |i: int| u16_at(s, 56 + 2 * i) as u16);
    assert forall|i: int| 0 <= i < 36 implies #[trigger] u[i] == u16_at(s, 56 + 2 * i) by {
        let pair = name.subrange(2 * i, 2 * i + 2);
        lemma_value_2(pair);
        assert(pair[0] == s[56 + 2 * i] && pair[1] == s[57 + 2 * i]);
    }
    assert(v =~= u.take(n));
    assert forall|i: int| 0 <= i < n implies #[trigger] u[i] != 0 by {
        assert(u16_at(s, 56 + 2 * i) != 0);
    }
    law_units_end_at_zero(u, n);
}

/// The code units of a name are those in front of the first zero, or all of them.
pub proof fn law_units_end_at_zero(u: Seq<u16>, n: int)
    requires
        0 <= n <= u.len(),
        forall|i: int| 0 <= i < n ==> #[trigger] u[i] != 0,
        n < u.len() ==> u[n] == 0,
    ensures
        partition::until_zero(u) == u.take(n),
    decreases u.len(),
{
    if n > 0 {
        assert(u[0] != 0);
        let r = u.drop_first();
        assert forall|i: int| 0 <= i < n - 1 implies #[trigger] r[i] != 0 by {
            assert(u[i + 1] != 0);
        }
        law_units_end_at_zero(r, n - 1);
        assert(partition::until_zero(u) =~= u.take(n));
    } else {
        assert(partition::until_zero(u) =~= u.take(n));
    }
}

/// The bytes that an entry is written as: its type GUID as it is, its own GUID, the first LBA, the
/// last LBA, the attributes, and 36 code units of its name, with zeros after its end.
pub proof fn law_entry_bytes(e: EntryModel)
    requires
        e.partition_type_guid.len() == 16,
        e.unique_parition_guid.len() == 16,
    ensures
        ({
            let s = partition::encode_entry(e);
            let u = utf16::utf16_encode(e.partition_name);
            &&& s.len() == 128
            &&& forall|i: int| 0 <= i < 16 ==> #[trigger] s[i] == e.partition_type_guid[i]
            &&& forall|i: int| 16 <= i < 32 ==> #[trigger] s[i] == e.unique_parition_guid[i - 16]
            &&& u64_at(s, 32) == e.starting_lba
            &&& u64_at(s, 40) == e.ending_lba
            &&& u64_at(s, 48) == e.attribute_bits
            &&& forall|i: int|
                0 <= i < 36 ==> #[trigger] u16_at(s, 56 + 2 * i) == if i < u.len() {
                    u[i] as int
                } else {
                    0
                }
        }),
{
    let s = partition::encode_entry(e);
    let u = utf16::utf16_encode(e.partition_name);
    let units = partition::name_units(e.partition_name);
    let name = partition::units_bytes(units);
    partition::lemma_encode_entry_len(e);
    lemma_bytes_8(e.starting_lba);
    lemma_bytes_8(e.ending_lba);
    lemma_bytes_8(e.attribute_bits);
    partition::lemma_units_bytes_len(units);
    partition::lemma_bytes_units_of_units(units);
    lemma_u64_is_at(e.starting_lba, s, 32);
    lemma_u64_is_at(e.ending_lba, s, 40);
    lemma_u64_is_at(e.attribute_bits, s, 48);
    assert forall|i: int| 0 <= i < 36 implies #[trigger] u16_at(s, 56 + 2 * i) == if i < u.len() {
        u[i] as int
    } else {
        0
    } by {
        let pair = name.subrange(2 * i, 2 * i + 2);
        lemma_value_2(pair);
        assert(partition::bytes_units(name)[i] == units[i]);
        assert(s[56 + 2 * i] == pair[0] && s[57 + 2 * i] == pair[1]);
    }
}

/// The code units of a text that starts with some character: one that is the number of the
/// character, or a pair of a high and a low surrogate that hold ten bits each of what its number
/// is above 0x1_0000, and then those of the rest.
pub proof fn law_text_units(c: char, rest: Seq<char>)
    ensures
        ({
            let u = utf16::utf16_encode(seq![c] + rest);
            let more = utf16::utf16_encode(rest);
            if (c as u32) < 0x1_0000 {
                u.len() == 1 + more.len() && u[0] == c as u32 && u.skip(1) == more
            } else {
                &&& u.len() == 2 + more.len()
                &&& 0xD800 <= u[0] < 0xDC00
                &&& 0xDC00 <= u[1] < 0xE000
                &&& 0x1_0000 + (u[0] - 0xD800) * 0x400 + (u[1] - 0xDC00) == c as u32
                &&& u.skip(2) == more
            }
        }),
        utf16::utf16_encode(Seq::<char>::empty()) == Seq::<u16>::empty(),
{
    let s = seq![c] + rest;
    let u = utf16::utf16_encode(s);
    let more = utf16::utf16_encode(rest);
    vstd::utf8::char_is_scalar(c);
    assert(s.drop_first() =~= rest);
    assert(u == utf16::char_units(c) + more);
    if (c as u32) < 0x1_0000 {
        assert(u.skip(1) =~= more);
    } else {
        assert(u.skip(2) =~= more);
    }
}

/// The text of some code units: a high surrogate with a low one behind it is one character, any
/// other surrogate becomes the replacement character, and any other code unit the character with
/// its number.
pub proof fn law_units_text(u: Seq<u16>)
    requires
        u.len() > 0,
    ensures
        ({
            let s = utf16::utf16_decode_lossy(u);
            let high = 0xD800 <= u[0] < 0xDC00;
            let low = 0xDC00 <= u[0] < 0xE000;
            let pair = high && u.len() >= 2 && 0xDC00 <= u[1] < 0xE000;
            &&& s.len() > 0
            &&& pair ==> s[0] as u32 == 0x1_0000 + (u[0] - 0xD800) * 0x400 + (u[1] - 0xDC00)
                && s.skip(1) == utf16::utf16_decode_lossy(u.skip(2))
            &&& !pair ==> s.skip(1) == utf16::utf16_decode_lossy(u.skip(1))
            &&& !pair && (high || low) ==> s[0] as u32 == 0xFFFD
            &&& !high && !low ==> s[0] as u32 == u[0]
        }),
        utf16::utf16_decode_lossy(Seq::<u16>::empty()) == Seq::<char>::empty(),
{
    let s = utf16::utf16_decode_lossy(u);
    assert(u.drop_first() =~= u.skip(1));
    if utf16::is_high_surrogate(u[0]) && u.len() >= 2 && utf16::is_low_surrogate(u[1]) {
        assert(s.skip(1) =~= utf16::utf16_decode_lossy(u.skip(2)));
        let w = 0x1_0000 + (u[0] - 0xD800) * 0x400 + (u[1] - 0xDC00);
        assert(0x1_0000 <= w <= 0x10_FFFF);
        assert(((w as u32) as char) as u32 == w);
    } else {
        assert(s.skip(1) =~= utf16::utf16_decode_lossy(u.skip(1)));
        assert(utf16::REPLACEMENT as u32 == 0xFFFD);
        if !utf16::is_high_surrogate(u[0]) && !utf16::is_low_surrogate(u[0]) {
            assert(((u[0] as u32) as char) as u32 == u[0]);
        }
    }
}

/// What a header that is read from some bytes says.
pub proof fn law_header_fields(s: Seq<u8>)
    requires
        s.len() >= 92,
    ensures
        ({
            let h = header::decode_header(s);
            &&& h.signature.len() == 8
            &&& h.revision.len() == 4
            &&& h.reserved.len() == 4
            &&& h.disk_guid.len() == 16
            &&& forall|i: int| 0 <= i < 8 ==> #[trigger] h.signature[i] == s[i]
            &&& forall|i: int| 0 <= i < 4 ==> #[trigger] h.revision[i] == s[8 + i]
            &&& h.header_size == u32_at(s, 12)
            &&& h.crc32_checksum == u32_at(s, 16)
            &&& forall|i: int| 0 <= i < 4 ==> #[trigger] h.reserved[i] == s[20 + i]
            &&& h.primary_lba == u64_at(s, 24)
            &&& h.backup_lba == u64_at(s, 32)
            &&& h.first_usable_lba == u64_at(s, 40)
            &&& h.last_usable_lba == u64_at(s, 48)
            &&& forall|i: int| 0 <= i < 16 ==> #[trigger] h.disk_guid[i] == s[56 + i]
            &&& h.partition_entry_lba == u64_at(s, 72)
            &&& h.number_of_partition_entries == u32_at(s, 80)
            &&& h.size_of_partition_entry == u32_at(s, 84)
            &&& h.partition_entry_array_crc32 == u32_at(s, 88)
        }),
{
    lemma_u32_of(s, 12);
    lemma_u32_of(s, 16);
    lemma_u64_of(s, 24);
    lemma_u64_of(s, 32);
    lemma_u64_of(s, 40);
    lemma_u64_of(s, 48);
    lemma_u64_of(s, 72);
    lemma_u32_of(s, 80);
    lemma_u32_of(s, 84);
    lemma_u32_of(s, 88);
}

/// The bytes that a header is written as.
pub proof fn law_header_bytes(h: HeaderModel)
    requires
        h.signature.len() == 8,
        h.revision.len() == 4,
        h.reserved.len() == 4,
        h.disk_guid.len() == 16,
    ensures
        ({
            let s = header::encode_header(h);
            &&& s.len() == 92
            &&& forall|i: int| 0 <= i < 8 ==> #[trigger] s[i] == h.signature[i]
            &&& forall|i: int| 8 <= i < 12 ==> #[trigger] s[i] == h.revision[i - 8]
            &&& u32_at(s, 12) == h.header_size
            &&& u32_at(s, 16) == h.crc32_checksum
            &&& forall|i: int| 20 <= i < 24 ==> #[trigger] s[i] == h.reserved[i - 20]
            &&& u64_at(s, 24) == h.primary_lba
            &&& u64_at(s, 32) == h.backup_lba
            &&& u64_at(s, 40) == h.first_usable_lba
            &&& u64_at(s, 48) == h.last_usable_lba
            &&& forall|i: int| 56 <= i < 72 ==> #[trigger] s[i] == h.disk_guid[i - 56]
            &&& u64_at(s, 72) == h.partition_entry_lba
            &&& u32_at(s, 80) == h.number_of_partition_entries
            &&& u32_at(s, 84) == h.size_of_partition_entry
            &&& u32_at(s, 88) == h.partition_entry_array_crc32
        }),
{
    let s = header::encode_header(h);
    header::law_header_round_trip(h);
    law_header_fields(s);
    let r = header::decode_header(s);
    assert forall|i: int| 0 <= i < 8 implies #[trigger] s[i] == h.signature[i] by {
        assert(r.signature[i] == s[i]);
    }
    assert forall|i: int| 8 <= i < 12 implies #[trigger] s[i] == h.revision[i - 8] by {
        assert(r.revision[i - 8] == s[i]);
    }
    assert forall|i: int| 20 <= i < 24 implies #[trigger] s[i] == h.reserved[i - 20] by {
        assert(r.reserved[i - 20] == s[i]);
    }
    assert forall|i: int| 56 <= i < 72 implies #[trigger] s[i] == h.disk_guid[i - 56] by {
        assert(r.disk_guid[i - 56] == s[i]);
    }
}

/// Whether some bytes start with "EFI PART".
pub open spec fn starts_with_signature(s: Seq<u8>) -> bool {
    s[0] == 0x45 && s[1] == 0x46 && s[2] == 0x49 && s[3] == 0x20 && s[4] == 0x50 && s[5] == 0x41
        && s[6] == 0x52 && s[7] == 0x54
}

/// The checksum of a header in some bytes: that of the 92 bytes, with zeros in place of the
/// checksum that is stored in them.
pub open spec fn sum_of_header(s: Seq<u8>) -> u32 {
    checksum::crc32_ieee(s.subrange(0, 16) + seq![0u8, 0u8, 0u8, 0u8] + s.subrange(20, 92))
}

/// What is made of some bytes that should be a header: the first thing that is wrong with them, in
/// the order of length, signature, revision, size and checksum, and the header if nothing is.
pub proof fn law_header_check(s: Seq<u8>)
    ensures
        s.len() < 92 ==> header::parse_header(s) == Err::<HeaderModel, ErrorModel>(
            ErrorModel::Deserialize,
        ),
        s.len() >= 92 ==> ({
            let signed = starts_with_signature(s);
            let revised = s[8] == 0 && s[9] == 0 && s[10] == 1 && s[11] == 0;
            let sized = u32_at(s, 12) == 92;
            let summed = u32_at(s, 16) == sum_of_header(s);
            let r = header::parse_header(s);
            &&& !signed ==> r == Err::<HeaderModel, ErrorModel>(ErrorModel::InvalidSignature)
            &&& signed && !revised ==> r == Err::<HeaderModel, ErrorModel>(
                ErrorModel::InvalidRevision,
            )
            &&& signed && revised && !sized ==> r == Err::<HeaderModel, ErrorModel>(
                ErrorModel::InvalidHeaderSize,
            )
            &&& signed && revised && sized && !summed ==> r == Err::<HeaderModel, ErrorModel>(
                ErrorModel::InvalidChecksum(u32_at(s, 16) as u32, sum_of_header(s)),
            )
            &&& signed && revised && sized && summed ==> r == Ok::<HeaderModel, ErrorModel>(
                header::decode_header(s),
            )
        }),
{
    if s.len() >= 92 {
        let h = header::decode_header(s);
        law_header_fields(s);
        assert(starts_with_signature(s) == (h.signature == header::gpt_signature())) by {
            if starts_with_signature(s) {
                assert(h.signature =~= header::gpt_signature());
            } else {
                assert(h.signature[0] == s[0] && h.signature[1] == s[1] && h.signature[2] == s[2]
                    && h.signature[3] == s[3] && h.signature[4] == s[4] && h.signature[5] == s[5]
                    && h.signature[6] == s[6] && h.signature[7] == s[7]);
            }
        }
        let revised = s[8] == 0 && s[9] == 0 && s[10] == 1 && s[11] == 0;
        assert(revised == (h.revision == header::gpt_revision())) by {
            if revised {
                assert(h.revision =~= header::gpt_revision());
            } else {
                assert(h.revision[0] == s[8] && h.revision[1] == s[9] && h.revision[2] == s[10]
                    && h.revision[3] == s[11]);
            }
        }
        lemma_sum_of_header(s);
    }
}

proof fn lemma_sum_of_header(s: Seq<u8>)
    requires
        s.len() >= 92,
    ensures
        sum_of_header(s) == header::header_checksum(header::decode_header(s)),
{
    let z = s.subrange(0, 16) + seq![0u8, 0u8, 0u8, 0u8] + s.subrange(20, 92);
    let h = HeaderModel { crc32_checksum: 0, ..header::decode_header(s) };
    let r = header::decode_header(z);
    assert(z.subrange(0, 8) =~= s.subrange(0, 8));
    assert(z.subrange(8, 12) =~= s.subrange(8, 12));
    assert(z.subrange(12, 16) =~= s.subrange(12, 16));
    assert(z.subrange(20, 24) =~= s.subrange(20, 24));
    assert(z.subrange(24, 32) =~= s.subrange(24, 32));
    assert(z.subrange(32, 40) =~= s.subrange(32, 40));
    assert(z.subrange(40, 48) =~= s.subrange(40, 48));
    assert(z.subrange(48, 56) =~= s.subrange(48, 56));
    assert(z.subrange(56, 72) =~= s.subrange(56, 72));
    assert(z.subrange(72, 80) =~= s.subrange(72, 80));
    assert(z.subrange(80, 84) =~= s.subrange(80, 84));
    assert(z.subrange(84, 88) =~= s.subrange(84, 88));
    assert(z.subrange(88, 92) =~= s.subrange(88, 92));
    lemma_u32_of(z, 16);
    assert(r =~= h);
    header::law_header_bytes_are_kept(z);
}

proof fn lemma_entries_bytes(entries: Seq<EntryModel>)
    requires
        forall|i: int| 0 <= i < entries.len() ==> partition::has_guids(#[trigger] entries[i]),
    ensures
        header::entries_bytes(entries).len() == 128 * entries.len(),
        forall|i: int, j: int|
            0 <= i < entries.len() && 0 <= j < 128 ==> header::entries_bytes(entries)[128 * i + j]
                == #[trigger] partition::encode_entry(entries[i])[j],
    decreases entries.len(),
{
    if entries.len() > 0 {
        let front = entries.drop_last();
        let n = front.len() as int;
        assert forall|i: int| 0 <= i < n implies partition::has_guids(#[trigger] front[i]) by {
            assert(partition::has_guids(entries[i]));
        }
        lemma_entries_bytes(front);
        assert(partition::has_guids(entries[n]));
        partition::lemma_encode_entry_len(entries[n]);
        let all = header::entries_bytes(entries);
        assert forall|i: int, j: int| 0 <= i < entries.len() && 0 <= j < 128 implies all[128 * i
            + j] == #[trigger] partition::encode_entry(entries[i])[j] by {
            if i < n {
                assert(front[i] == entries[i]);
                assert(partition::encode_entry(front[i])[j] == header::entries_bytes(front)[128 * i
                    + j]);
            }
        }
    }
}

/// The checksum of some entries is that of their bytes, one entry right after the other.
pub proof fn law_array_checksum(entries: Seq<EntryModel>, b: Seq<u8>)
    requires
        forall|i: int|
            0 <= i < entries.len() ==> (#[trigger] entries[i]).partition_type_guid.len() == 16
                && entries[i].unique_parition_guid.len() == 16,
        b.len() == 128 * entries.len(),
        forall|i: int, j: int|
            0 <= i < entries.len() && 0 <= j < 128 ==> b[128 * i + j]
                == #[trigger] partition::encode_entry(entries[i])[j],
    ensures
        header::entries_checksum(entries) == checksum::crc32_ieee(b),
{
    let all = header::entries_bytes(entries);
    lemma_entries_bytes(entries);
    assert forall|k: int| 0 <= k < b.len() implies all[k] == b[k] by {
        let i = k / 128;
        let j = k % 128;
        assert(k == 128 * i + j);
        assert(b[128 * i + j] == partition::encode_entry(entries[i])[j]);
    }
    assert(all =~= b);
}

/// A header that is sealed for some entries keeps all that it says but for the two checksums: that
/// of the entries, and then that of its own bytes with zeros in place of it.
pub proof fn law_seal(h: HeaderModel, entries: Seq<EntryModel>)
    requires
        h.signature.len() == 8,
        h.revision.len() == 4,
        h.reserved.len() == 4,
        h.disk_guid.len() == 16,
    ensures
        ({
            let r = header::sealed_header(h, entries);
            &&& r.signature == h.signature
            &&& r.revision == h.revision
            &&& r.header_size == h.header_size
            &&& r.reserved == h.reserved
            &&& r.primary_lba == h.primary_lba
            &&& r.backup_lba == h.backup_lba
            &&& r.first_usable_lba == h.first_usable_lba
            &&& r.last_usable_lba == h.last_usable_lba
            &&& r.disk_guid == h.disk_guid
            &&& r.partition_entry_lba == h.partition_entry_lba
            &&& r.number_of_partition_entries == h.number_of_partition_entries
            &&& r.size_of_partition_entry == h.size_of_partition_entry
            &&& r.partition_entry_array_crc32 == header::entries_checksum(entries)
            &&& r.crc32_checksum == sum_of_header(header::encode_header(r))
        }),
{
    let r = header::sealed_header(h, entries);
    header::law_header_round_trip(r);
    lemma_sum_of_header(header::encode_header(r));
    let array = HeaderModel { partition_entry_array_crc32: header::entries_checksum(entries), ..h };
    assert(HeaderModel { crc32_checksum: 0, ..r } =~= HeaderModel { crc32_checksum: 0, ..array });
}

/// What the fields of a header in memory say is what it says.
pub proof fn law_header_view(h: GPTHeader)
    ensures
        h@.signature == h.signature@,
        h@.revision == h.revision@,
        h@.header_size == h.header_size,
        h@.crc32_checksum == h.crc32_checksum,
        h@.reserved == h.reserved@,
        h@.primary_lba == h.primary_lba,
        h@.backup_lba == h.backup_lba,
        h@.first_usable_lba == h.first_usable_lba,
        h@.last_usable_lba == h.last_usable_lba,
        h@.disk_guid == h.disk_guid@,
        h@.partition_entry_lba == h.partition_entry_lba,
        h@.number_of_partition_entries == h.number_of_partition_entries,
        h@.size_of_partition_entry == h.size_of_partition_entry,
        h@.partition_entry_array_crc32 == h.partition_entry_array_crc32,
        h@.signature.len() == 8,
        h@.revision.len() == 4,
        h@.reserved.len() == 4,
        h@.disk_guid.len() == 16,
{
}

/// What the fields of an entry in memory say is what it says.
pub proof fn law_entry_view(e: GPTPartitionEntry)
    ensures
        e@.partition_type_guid == e.partition_type_guid@,
        e@.unique_parition_guid == e.unique_parition_guid@,
        e@.starting_lba == e.starting_lba,
        e@.ending_lba == e.ending_lba,
        e@.attribute_bits == e.attribute_bits,
        e@.partition_name == e.partition_name@,
        e@.partition_type_guid.len() == 16,
        e@.unique_parition_guid.len() == 16,
{
}

/// The number that some digits stand for, the first of which counts most.
pub open spec fn number_of(s: Seq<char>) -> int
    decreases s.len(),
{
    if s.len() == 0 {
        0
    } else {
        10 * number_of(s.drop_last()) + (s.last() as u32 - 48)
    }
}

/// A number in an error message is made of digits that stand for it, with no zero in front.
pub proof fn law_decimal(n: nat)
    ensures
        number_of(error::decimal(n)) == n,
        error::decimal(n).len() > 0,
        forall|i: int|
            0 <= i < error::decimal(n).len() ==> 48 <= #[trigger] error::decimal(n)[i] as u32 <= 57,
        n > 0 ==> error::decimal(n)[0] as u32 != 48,
    decreases n,
{
    let s = error::decimal(n);
    let d = n % 10;
    assert((((48 + d) as u32) as char) as u32 == 48 + d);
    if n >= 10 {
        law_decimal(n / 10);
        assert(s.drop_last() =~= error::decimal(n / 10));
        assert(s[0] == error::decimal(n / 10)[0]);
    } else {
        assert(s.drop_last() =~= Seq::empty());
        assert(number_of(s.drop_last()) == 0);
    }
}

/// The checksum of a header is that of its bytes, with zeros in place of the checksum that is
/// stored in them, whatever that is.
pub proof fn law_header_sum(h: HeaderModel)
    requires
        h.signature.len() == 8,
        h.revision.len() == 4,
        h.reserved.len() == 4,
        h.disk_guid.len() == 16,
    ensures
        header::header_checksum(h) == sum_of_header(header::encode_header(h)),
{
    header::law_header_round_trip(h);
    header::lemma_encode_header_len(h);
    lemma_sum_of_header(header::encode_header(h));
}

/// Whether some characters are the digits of a number, with no zero in front.
pub open spec fn is_number(s: Seq<char>, n: int) -> bool {
    &&& s.len() > 0
    &&& forall|i: int| 0 <= i < s.len() ==> 48 <= #[trigger] s[i] as u32 <= 57
    &&& number_of(s) == n
    &&& n > 0 ==> s[0] as u32 != 48
}

/// Whether a message is some text, two numbers with a sign between them, and a bracket.
pub open spec fn tells_both(m: Seq<char>, before: Seq<char>, x: u32, y: u32) -> bool {
    exists|a: Seq<char>, b: Seq<char>|
        is_number(a, x as int) && #[trigger] is_number(b, y as int) && m == #[trigger] (before + a
            + " != "@ + b + ")"@)
}

/// What the messages of the errors are. Those with numbers tell them in their order.
pub proof fn law_messages(e: ErrorModel, m: Seq<char>)
    requires
        error::is_message(e, m),
    ensures
        e is InvalidSignature ==> m == "invalid signature"@,
        e is InvalidRevision ==> m == "invalid revision"@,
        e is InvalidHeaderSize ==> m == "invalid header size"@,
        e is NoSpaceLeft ==> m == "no space left"@,
        e is ConflictPartitionGUID ==> m == "conflict of partition GUIDs"@,
        e is InvalidPartitionBoundaries ==> m
            == "invalid partition boundaries: the ending must start at or after the starting"@,
        e matches ErrorModel::InvalidChecksum(x, y) ==> tells_both(
            m,
            "corrupted CRC32 checksum ("@,
            x,
            y,
        ),
        e matches ErrorModel::InvalidPartitionEntryArrayChecksum(x, y) ==> tells_both(
            m,
            "corrupted partition entry array CRC32 checksum ("@,
            x,
            y,
        ),
        e matches ErrorModel::InvalidPartitionNumber(i) ==> exists|a: Seq<char>|
            #[trigger] is_number(a, i as int) && m == "invalid partition number: "@ + a,
        e matches ErrorModel::ReadError(primary, backup) ==> exists|p: Seq<char>, b: Seq<char>|
            {
                &&& #[trigger] error::is_message(*primary, p)
                &&& #[trigger] error::is_message(*backup, b)
                &&& m == "could not read primary header ("@ + p + ") nor backup header ("@ + b
                    + ")"@
            },
{
    match e {
        ErrorModel::InvalidChecksum(x, y) => {
            lemma_tells_both(m, "corrupted CRC32 checksum ("@, x, y);
        },
        ErrorModel::InvalidPartitionEntryArrayChecksum(x, y) => {
            lemma_tells_both(m, "corrupted partition entry array CRC32 checksum ("@, x, y);
        },
        ErrorModel::InvalidPartitionNumber(i) => {
            law_decimal(i as nat);
            assert(is_number(error::decimal(i as nat), i as int));
        },
        ErrorModel::ReadError(primary, backup) => {
            let (p, b) = choose|p: Seq<char>, b: Seq<char>|
                {
                    &&& error::is_message(*primary, p)
                    &&& error::is_message(*backup, b)
                    &&& m == #[trigger] error::read_error_message(p, b)
                };
            assert(error::is_message(*primary, p) && error::is_message(*backup, b));
        },
        _ => {},
    }
}

proof fn lemma_tells_both(m: Seq<char>, before: Seq<char>, x: u32, y: u32)
    requires
        m == before + error::decimal(x as nat) + " != "@ + error::decimal(y as nat) + ")"@,
    ensures
        tells_both(m, before, x, y),
{
    let a = error::decimal(x as nat);
    let b = error::decimal(y as nat);
    law_decimal(x as nat);
    law_decimal(y as nat);
    assert(is_number(a, x as int) && is_number(b, y as int));
    assert(m == before + a + " != "@ + b + ")"@);
}

} // verus!
