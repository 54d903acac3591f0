//! What is on a disk, byte by byte, after a table was written to it, and what a table that was
//! read from a disk says of the bytes there.

use vstd::prelude::*;
use crate::bytes;
use crate::checksum;
use crate::disk;
use crate::disk::{DiskWrite, WriteModel};
use crate::error::{Error, ErrorModel};
use crate::fields;
use crate::header;
use crate::header::HeaderModel;
use crate::meaning;
use crate::partition;
use crate::partition::EntryModel;
use crate::reader;
use crate::reader::{Answer, ReaderModel, Request, StageModel};
use crate::storage;
use crate::table;
use crate::table::TableModel;
use crate::utf16;
use crate::writer;

verus! {

/// Whether the bytes from position `at` of a disk on are those of a header: all that it says is
/// there, each field at its own place.
pub open spec fn shows_header(d: Seq<u8>, at: int, h: HeaderModel) -> bool {
    &&& 0 <= at && at + 92 <= d.len()
    &&& h.signature.len() == 8
    &&& h.revision.len() == 4
    &&& h.reserved.len() == 4
    &&& h.disk_guid.len() == 16
    &&& forall|i: int| 0 <= i < 8 ==> d[at + i] == #[trigger] h.signature[i]
    &&& forall|i: int| 0 <= i < 4 ==> d[at + 8 + i] == #[trigger] h.revision[i]
    &&& fields::u32_at(d, at + 12) == h.header_size
    &&& fields::u32_at(d, at + 16) == h.crc32_checksum
    &&& forall|i: int| 0 <= i < 4 ==> d[at + 20 + i] == #[trigger] h.reserved[i]
    &&& fields::u64_at(d, at + 24) == h.primary_lba
    &&& fields::u64_at(d, at + 32) == h.backup_lba
    &&& fields::u64_at(d, at + 40) == h.first_usable_lba
    &&& fields::u64_at(d, at + 48) == h.last_usable_lba
    &&& forall|i: int| 0 <= i < 16 ==> d[at + 56 + i] == #[trigger] h.disk_guid[i]
    &&& fields::u64_at(d, at + 72) == h.partition_entry_lba
    &&& fields::u32_at(d, at + 80) == h.number_of_partition_entries
    &&& fields::u32_at(d, at + 84) == h.size_of_partition_entry
    &&& fields::u32_at(d, at + 88) == h.partition_entry_array_crc32
}

/// Whether the bytes from position `at` of a disk on are those of an entry, but for its name.
pub open spec fn shows_entry(d: Seq<u8>, at: int, e: EntryModel) -> bool {
    &&& 0 <= at && at + 128 <= d.len()
    &&& e.partition_type_guid.len() == 16
    &&& e.unique_parition_guid.len() == 16
    &&& forall|i: int| 0 <= i < 16 ==> d[at + i] == #[trigger] e.partition_type_guid[i]
    &&& forall|i: int| 0 <= i < 16 ==> d[at + 16 + i] == #[trigger] e.unique_parition_guid[i]
    &&& fields::u64_at(d, at + 32) == e.starting_lba
    &&& fields::u64_at(d, at + 40) == e.ending_lba
    &&& fields::u64_at(d, at + 48) == e.attribute_bits
}

/// Whether the code units of a name, as many as there is room for, are at position `at` of a disk,
/// with zeros after them.
pub open spec fn shows_name(d: Seq<u8>, at: int, name: Seq<char>) -> bool {
    let u = utf16::utf16_encode(name);
    forall|i: int|
        0 <= i < 36 ==> #[trigger] fields::u16_at(d, at + 2 * i) == if i < u.len() {
            u[i] as int
        } else {
            0
        }
}

/// A write puts its bytes where it says. What comes before and after them stays as it is. A disk
/// that is too short grows just as far as it has to, with zeros up to the bytes.
pub proof fn law_overwrite(d: Seq<u8>, w: WriteModel)
    ensures
        ({
            let r = disk::overwrite(d, w);
            let end = w.offset + w.bytes.len();
            &&& w.bytes.len() == 0 || end <= d.len() ==> r.len() == d.len()
            &&& w.bytes.len() > 0 && end > d.len() ==> r.len() == end
            &&& forall|i: int| 0 <= i < w.bytes.len() ==> r[w.offset + i] == #[trigger] w.bytes[i]
            &&& forall|x: int|
                0 <= x < d.len() && !(w.offset <= x < end) ==> r[x] == #[trigger] d[x]
            &&& forall|x: int| d.len() <= x < r.len() && x < w.offset ==> #[trigger] r[x] == 0
        }),
{
}

/// Some writes leave every byte as the last of them that reaches it puts it.
pub proof fn law_last_write_stays(d: Seq<u8>, writes: Seq<WriteModel>, k: int, i: int)
    requires
        0 <= k < writes.len(),
        0 <= i < writes[k].bytes.len(),
        forall|m: int|
            k < m < writes.len() ==> !((#[trigger] writes[m]).offset <= writes[k].offset + i
                < writes[m].offset + writes[m].bytes.len()),
    ensures
        disk::apply_writes(d, writes).len() > writes[k].offset + i,
        disk::apply_writes(d, writes)[writes[k].offset + i] == writes[k].bytes[i],
    decreases writes.len(),
{
    let front = writes.drop_last();
    if k < front.len() {
        assert forall|m: int| k < m < front.len() implies !((#[trigger] front[m]).offset
            <= front[k].offset + i < front[m].offset + front[m].bytes.len()) by {
            assert(front[m] == writes[m]);
        }
        law_last_write_stays(d, front, k, i);
        assert(writes[writes.len() - 1] == writes.last());
    }
}

/// Some writes leave every byte as it was that none of them reaches.
pub proof fn law_untouched_byte_stays(d: Seq<u8>, writes: Seq<WriteModel>, x: int)
    requires
        0 <= x < d.len(),
        forall|m: int|
            0 <= m < writes.len() ==> !((#[trigger] writes[m]).offset <= x < writes[m].offset
                + writes[m].bytes.len()),
    ensures
        disk::apply_writes(d, writes).len() >= d.len(),
        disk::apply_writes(d, writes)[x] == d[x],
    decreases writes.len(),
{
    if writes.len() > 0 {
        let front = writes.drop_last();
        assert forall|m: int| 0 <= m < front.len() implies !((#[trigger] front[m]).offset <= x
            < front[m].offset + front[m].bytes.len()) by {
            assert(front[m] == writes[m]);
        }
        law_untouched_byte_stays(d, front, x);
        assert(writes[writes.len() - 1] == writes.last());
    }
}

/// Some writes make a disk just as long as the last byte of theirs needs it to be, and no shorter
/// than it was. Bytes that are new, and that none of them reaches, are zeros.
pub proof fn law_grown_disk(d: Seq<u8>, writes: Seq<WriteModel>)
    ensures
        ({
            let r = disk::apply_writes(d, writes);
            &&& r.len() >= d.len()
            &&& forall|m: int|
                0 <= m < writes.len() && (#[trigger] writes[m]).bytes.len() > 0 ==> r.len()
                    >= writes[m].offset + writes[m].bytes.len()
            &&& r.len() == d.len() || exists|m: int|
                0 <= m < writes.len() && r.len() == (#[trigger] writes[m]).offset
                    + writes[m].bytes.len()
            &&& forall|x: int|
                d.len() <= x < r.len() && (forall|m: int|
                    0 <= m < writes.len() ==> !((#[trigger] writes[m]).offset <= x
                        < writes[m].offset + writes[m].bytes.len())) ==> #[trigger] r[x] == 0
        }),
    decreases writes.len(),
{
    if writes.len() > 0 {
        let front = writes.drop_last();
        let n = front.len() as int;
        let before = disk::apply_writes(d, front);
        let r = disk::apply_writes(d, writes);
        law_grown_disk(d, front);
        assert(forall|m: int| 0 <= m < n ==> #[trigger] writes[m] == front[m]);
        assert(writes[n] == writes.last());
        if r.len() == before.len() {
            if r.len() != d.len() {
                let m = choose|m: int|
                    0 <= m < front.len() && before.len() == (#[trigger] front[m]).offset
                        + front[m].bytes.len();
                assert(r.len() == writes[m].offset + writes[m].bytes.len());
            }
        } else {
            assert(r.len() == writes[n].offset + writes[n].bytes.len());
        }
        assert forall|x: int|
            d.len() <= x < r.len() && (forall|m: int|
                0 <= m < writes.len() ==> !((#[trigger] writes[m]).offset <= x < writes[m].offset
                    + writes[m].bytes.len())) implies #[trigger] r[x] == 0 by {
            assert(!(writes[n].offset <= x < writes[n].offset + writes[n].bytes.len()));
            if x < before.len() {
                assert forall|m: int| 0 <= m < front.len() implies !((#[trigger] front[m]).offset
                    <= x < front[m].offset + front[m].bytes.len()) by {
                    assert(front[m] == writes[m]);
                }
                assert(before[x] == 0);
            }
        }
    }
}

/// What planned writes say is where they go and what bytes they have.
pub proof fn law_write_models(s: Seq<DiskWrite>, i: int)
    requires
        0 <= i < s.len(),
    ensures
        disk::write_models(s).len() == s.len(),
        disk::write_models(s)[i].offset == s[i].offset,
        disk::write_models(s)[i].bytes == s[i].bytes@,
{
}

/// A header goes to the sector that it says it is in, and its entries go to where it says that
/// they are, as far apart as it says.
pub proof fn law_copy_writes(
    h: HeaderModel,
    sector_size: u64,
    entries: Seq<EntryModel>,
    i: int,
)
    requires
        0 <= i,
    ensures
        ({
            let w = header::copy_writes(h, sector_size, entries);
            &&& w.len() == h.number_of_partition_entries + 1
            &&& w[0].offset == h.primary_lba * sector_size
            &&& w[0].bytes == header::encode_header(h)
            &&& i < h.number_of_partition_entries ==> w[i + 1].offset == h.partition_entry_lba
                * sector_size + i * h.size_of_partition_entry
            &&& i < h.number_of_partition_entries ==> w[i + 1].bytes == partition::encode_entry(
                entries[i],
            )
        }),
{
    header::lemma_entry_offset_bound(h, sector_size, 0, i);
    assert(0 <= h.primary_lba * sector_size) by (nonlinear_arith);
    assert(0 <= h.partition_entry_lba * sector_size) by (nonlinear_arith);
    assert(0 <= i * h.size_of_partition_entry) by (nonlinear_arith)
        requires
            0 <= i,
    ;
}

/// Whether two headers say the same of the disk, of its usable sectors and of their entries, and
/// each says where the other one is.
pub open spec fn are_twins(a: HeaderModel, b: HeaderModel) -> bool {
    &&& a.signature == b.signature
    &&& a.revision == b.revision
    &&& a.header_size == b.header_size
    &&& a.reserved == b.reserved
    &&& a.primary_lba == b.backup_lba
    &&& a.backup_lba == b.primary_lba
    &&& a.first_usable_lba == b.first_usable_lba
    &&& a.last_usable_lba == b.last_usable_lba
    &&& a.disk_guid == b.disk_guid
    &&& a.number_of_partition_entries == b.number_of_partition_entries
    &&& a.size_of_partition_entry == b.size_of_partition_entry
}

/// The two headers that are written for a table, where `array` is the least number of sectors that
/// have room for the partition array. The first one is that of the table, and keeps what it said
/// of the table; the second one differs only in its place and in that of its entries.
pub proof fn law_two_headers(t: TableModel, len: u64, array: int)
    requires
        header::can_update(t.header, len, t.sector_size),
        (array - 1) * t.sector_size < t.header.number_of_partition_entries
            * t.header.size_of_partition_entry <= array * t.sector_size,
    ensures
        ({
            let sectors = (len / t.sector_size) as int;
            let h = writer::placed_header(t, len);
            let m = writer::mirrored_header(h);
            &&& are_twins(h, m)
            &&& h.signature == t.header.signature
            &&& h.revision == t.header.revision
            &&& h.header_size == t.header.header_size
            &&& h.reserved == t.header.reserved
            &&& h.disk_guid == t.header.disk_guid
            &&& h.number_of_partition_entries == t.header.number_of_partition_entries
            &&& h.size_of_partition_entry == t.header.size_of_partition_entry
            &&& t.header.primary_lba == 1 ==> h.primary_lba == 1 && m.primary_lba == sectors - 1
                && h.first_usable_lba == t.header.partition_entry_lba + array
            &&& t.header.primary_lba != 1 ==> m.primary_lba == 1 && h.primary_lba == sectors - 1
                && h.first_usable_lba == 2 + array
            &&& h.last_usable_lba == sectors - 2 - array
            &&& t.header.partition_entry_lba == 2 ==> h.partition_entry_lba == 2
                && m.partition_entry_lba == sectors - 1 - array
            &&& t.header.partition_entry_lba != 2 ==> m.partition_entry_lba == 2
                && h.partition_entry_lba == sectors - 1 - array
        }),
{
    meaning::law_update(t.header, len, t.sector_size, array);
    meaning::law_can_update(t.header, len, t.sector_size, array);
    assert(0 < t.header.number_of_partition_entries * t.header.size_of_partition_entry)
        by (nonlinear_arith)
        requires
            t.header.number_of_partition_entries > 0,
            t.header.size_of_partition_entry > 0,
    ;
    assert(array >= 1) by (nonlinear_arith)
        requires
            t.sector_size > 0,
            0 < t.header.number_of_partition_entries * t.header.size_of_partition_entry,
            t.header.number_of_partition_entries * t.header.size_of_partition_entry <= array
                * t.sector_size,
    ;
}

/// A table that is written first gets its own header on the disk and the entries next to it, and
/// then the other header and the same entries again. Both headers are sealed for the entries.
pub proof fn law_table_writes(t: TableModel, len: u64)
    ensures
        ({
            let h = writer::placed_header(t, len);
            let own = header::sealed_header(h, t.partitions);
            let other = header::sealed_header(writer::mirrored_header(h), t.partitions);
            let a = header::copy_writes(own, t.sector_size, t.partitions);
            let b = header::copy_writes(other, t.sector_size, t.partitions);
            let all = writer::table_writes(t, len);
            &&& all.len() == a.len() + b.len()
            &&& forall|i: int| 0 <= i < a.len() ==> #[trigger] all[i] == a[i]
            &&& forall|i: int| 0 <= i < b.len() ==> all[a.len() + i] == #[trigger] b[i]
        }),
{
}

/// A table that was written has its header as it is on the disk, and is as it was otherwise.
pub proof fn law_written_table(t: TableModel, len: u64)
    ensures
        ({
            let r = writer::written_table(t, len);
            &&& r.sector_size == t.sector_size
            &&& r.align == t.align
            &&& r.partitions == t.partitions
            &&& r.header == header::sealed_header(writer::placed_header(t, len), t.partitions)
        }),
{
}

/// A table can be written to a disk just where its header can be fitted to that, has the size of a
/// header, says of its entries how many bytes they take, counted in 32 bits, has no more entries
/// than there are, and no position on the disk is too large for either copy.
pub proof fn law_can_write_table(t: TableModel, len: u64)
    ensures
        writer::can_write_table(t, len) <==> {
            let n = t.header.number_of_partition_entries;
            let size = t.header.size_of_partition_entry;
            let h = writer::placed_header(t, len);
            let m = writer::mirrored_header(h);
            &&& header::can_update(t.header, len, t.sector_size)
            &&& t.header.header_size == 92
            &&& n * size <= u32::MAX
            &&& (128 * t.partitions.len() - n * size) % 0x1_0000_0000 == 0
            &&& n <= t.partitions.len()
            &&& h.primary_lba * t.sector_size <= u64::MAX
            &&& m.primary_lba * t.sector_size <= u64::MAX
            &&& h.partition_entry_lba * t.sector_size + (n - 1) * size <= u64::MAX
            &&& m.partition_entry_lba * t.sector_size + (n - 1) * size <= u64::MAX
        },
{
    let n = t.header.number_of_partition_entries;
    let size = t.header.size_of_partition_entry;
    let p = n * size;
    assert(size * n == p) by (nonlinear_arith)
        requires
            p == n * size,
    ;
    assert(0 <= p) by (nonlinear_arith)
        requires
            p == n * size,
    ;
    lemma_same_in_32_bits((128 * t.partitions.len()) as int, p);
}

/// Whether the bytes from position `at` of a disk on are some others.
spec fn is_copied(d: Seq<u8>, at: int, s: Seq<u8>, n: int) -> bool {
    &&& 0 <= at && at + n <= d.len()
    &&& n <= s.len()
    &&& forall|i: int| 0 <= i < n ==> d[at + i] == #[trigger] s[i]
}

proof fn lemma_u32_copied(d: Seq<u8>, at: int, s: Seq<u8>, n: int, k: int)
    requires
        is_copied(d, at, s, n),
        0 <= k,
        k + 4 <= n,
    ensures
        fields::u32_at(d, at + k) == fields::u32_at(s, k),
{
    assert(s[k] == d[at + k] && s[k + 1] == d[at + (k + 1)] && s[k + 2] == d[at + (k + 2)]
        && s[k + 3] == d[at + (k + 3)]);
}

proof fn lemma_u64_copied(d: Seq<u8>, at: int, s: Seq<u8>, n: int, k: int)
    requires
        is_copied(d, at, s, n),
        0 <= k,
        k + 8 <= n,
    ensures
        fields::u64_at(d, at + k) == fields::u64_at(s, k),
{
    lemma_u32_copied(d, at, s, n, k);
    lemma_u32_copied(d, at, s, n, k + 4);
}

/// The numbers in the bytes of a header are where these are copied to.
proof fn lemma_numbers_copied(d: Seq<u8>, at: int, s: Seq<u8>)
    requires
        is_copied(d, at, s, 92),
    ensures
        fields::u32_at(d, at + 12) == fields::u32_at(s, 12),
        fields::u32_at(d, at + 16) == fields::u32_at(s, 16),
        fields::u64_at(d, at + 24) == fields::u64_at(s, 24),
        fields::u64_at(d, at + 32) == fields::u64_at(s, 32),
        fields::u64_at(d, at + 40) == fields::u64_at(s, 40),
        fields::u64_at(d, at + 48) == fields::u64_at(s, 48),
        fields::u64_at(d, at + 72) == fields::u64_at(s, 72),
        fields::u32_at(d, at + 80) == fields::u32_at(s, 80),
        fields::u32_at(d, at + 84) == fields::u32_at(s, 84),
        fields::u32_at(d, at + 88) == fields::u32_at(s, 88),
{
    lemma_u32_copied(d, at, s, 92, 12);
    lemma_u32_copied(d, at, s, 92, 16);
    lemma_u64_copied(d, at, s, 92, 24);
    lemma_u64_copied(d, at, s, 92, 32);
    lemma_u64_copied(d, at, s, 92, 40);
    lemma_u64_copied(d, at, s, 92, 48);
    lemma_u64_copied(d, at, s, 92, 72);
    lemma_u32_copied(d, at, s, 92, 80);
    lemma_u32_copied(d, at, s, 92, 84);
    lemma_u32_copied(d, at, s, 92, 88);
}

proof fn lemma_shows_header(d: Seq<u8>, h: HeaderModel, sector_size: u64, entries: Seq<EntryModel>)
    requires
        storage::holds_copy(d, h, sector_size, entries),
        header::has_arrays(h),
    ensures
        shows_header(d, h.primary_lba * sector_size, h),
        d.subrange(h.primary_lba * sector_size, h.primary_lba * sector_size + 92)
            == header::encode_header(h),
{
    let w = header::copy_writes(h, sector_size, entries)[0];
    let at = h.primary_lba * sector_size;
    let s = header::encode_header(h);
    assert(0 <= at) by (nonlinear_arith)
        requires
            at == h.primary_lba * sector_size,
    ;
    assert(storage::holds(d, w));
    header::lemma_encode_header_len(h);
    assert forall|i: int| 0 <= i < 92 implies d[at + i] == #[trigger] s[i] by {
        assert(d.subrange(at, at + 92)[i] == s[i]);
    }
    lemma_encoded_header(h);
    lemma_header_copied(d, at, s, h);
}

/// A header is where its bytes are copied to.
proof fn lemma_header_copied(d: Seq<u8>, at: int, s: Seq<u8>, h: HeaderModel)
    requires
        shows_header(s, 0, h),
        is_copied(d, at, s, 92),
    ensures
        shows_header(d, at, h),
{
    lemma_numbers_copied(d, at, s);
    assert forall|i: int| 0 <= i < 8 implies d[at + i] == #[trigger] h.signature[i] by {
        assert(s[0 + i] == h.signature[i]);
    }
    assert forall|i: int| 0 <= i < 4 implies d[at + 8 + i] == #[trigger] h.revision[i] by {
        assert(s[0 + 8 + i] == h.revision[i]);
        assert(d[at + (8 + i)] == s[8 + i]);
    }
    assert forall|i: int| 0 <= i < 4 implies d[at + 20 + i] == #[trigger] h.reserved[i] by {
        assert(s[0 + 20 + i] == h.reserved[i]);
        assert(d[at + (20 + i)] == s[20 + i]);
    }
    assert forall|i: int| 0 <= i < 16 implies d[at + 56 + i] == #[trigger] h.disk_guid[i] by {
        assert(s[0 + 56 + i] == h.disk_guid[i]);
        assert(d[at + (56 + i)] == s[56 + i]);
    }
}

pub proof fn lemma_encoded_header(h: HeaderModel)
    requires
        header::has_arrays(h),
    ensures
        shows_header(header::encode_header(h), 0, h),
{
    let s = header::encode_header(h);
    fields::law_header_bytes(h);
    assert forall|i: int| 0 <= i < 4 implies s[0 + 8 + i] == #[trigger] h.revision[i] by {
        assert(s[8 + i] == h.revision[i]);
    }
    assert forall|i: int| 0 <= i < 4 implies s[0 + 20 + i] == #[trigger] h.reserved[i] by {
        assert(s[20 + i] == h.reserved[i]);
    }
    assert forall|i: int| 0 <= i < 16 implies s[0 + 56 + i] == #[trigger] h.disk_guid[i] by {
        assert(s[56 + i] == h.disk_guid[i]);
    }
    assert forall|i: int| 0 <= i < 8 implies s[0 + i] == #[trigger] h.signature[i] by {
        assert(s[i] == h.signature[i]);
    }
}

proof fn lemma_shows_entry(
    d: Seq<u8>,
    h: HeaderModel,
    sector_size: u64,
    entries: Seq<EntryModel>,
    i: int,
)
    requires
        storage::holds_copy(d, h, sector_size, entries),
        0 <= i < h.number_of_partition_entries,
        i < entries.len(),
        h.size_of_partition_entry == 128,
        entries[i].partition_type_guid.len() == 16,
        entries[i].unique_parition_guid.len() == 16,
    ensures
        ({
            let at = h.partition_entry_lba * sector_size + 128 * i;
            &&& shows_entry(d, at, entries[i])
            &&& shows_name(d, at + 56, entries[i].partition_name)
            &&& d.subrange(at, at + 128) == partition::encode_entry(entries[i])
        }),
{
    let w = header::copy_writes(h, sector_size, entries)[i + 1];
    let e = entries[i];
    let at = h.partition_entry_lba * sector_size + 128 * i;
    let s = partition::encode_entry(e);
    law_copy_writes(h, sector_size, entries, i);
    assert(0 <= h.partition_entry_lba * sector_size) by (nonlinear_arith);
    assert(storage::holds(d, w));
    partition::lemma_encode_entry_len(e);
    assert forall|k: int| 0 <= k < 128 implies d[at + k] == #[trigger] s[k] by {
        assert(d.subrange(at, at + 128)[k] == s[k]);
    }
    lemma_entry_copied(d, at, e);
    lemma_name_copied(d, at, e);
}

proof fn lemma_entry_copied(d: Seq<u8>, at: int, e: EntryModel)
    requires
        partition::has_guids(e),
        is_copied(d, at, partition::encode_entry(e), 128),
    ensures
        shows_entry(d, at, e),
{
    let s = partition::encode_entry(e);
    fields::law_entry_bytes(e);
    lemma_u64_copied(d, at, s, 128, 32);
    lemma_u64_copied(d, at, s, 128, 40);
    lemma_u64_copied(d, at, s, 128, 48);
    assert forall|k: int| 0 <= k < 16 implies d[at + k] == #[trigger] e.partition_type_guid[k] by {
        assert(s[k] == e.partition_type_guid[k]);
    }
    assert forall|k: int| 0 <= k < 16 implies d[at + 16 + k]
        == #[trigger] e.unique_parition_guid[k] by {
        assert(s[16 + k] == e.unique_parition_guid[k]);
    }
}

proof fn lemma_name_copied(d: Seq<u8>, at: int, e: EntryModel)
    requires
        partition::has_guids(e),
        is_copied(d, at, partition::encode_entry(e), 128),
    ensures
        shows_name(d, at + 56, e.partition_name),
{
    let s = partition::encode_entry(e);
    fields::law_entry_bytes(e);
    let u = utf16::utf16_encode(e.partition_name);
    assert forall|k: int| 0 <= k < 36 implies #[trigger] fields::u16_at(d, at + 56 + 2 * k)
        == if k < u.len() {
        u[k] as int
    } else {
        0
    } by {
        assert(s[56 + 2 * k] == d[at + (56 + 2 * k)] && s[57 + 2 * k] == d[at + (57 + 2 * k)]);
        assert(fields::u16_at(s, 56 + 2 * k) == fields::u16_at(d, at + 56 + 2 * k));
    }
}

/// Whether there is a copy of a table on a disk, with its header in the sector `lba`: the header
/// says what that of the table says of the disk and of the entries, and which sector it is in; its
/// checksums are those of the bytes that are there; and where it says that the entries are, there
/// are those of the table, one right after the other.
pub open spec fn shows_copy(d: Seq<u8>, t: TableModel, lba: int) -> bool {
    let at = lba * t.sector_size;
    let array = fields::u64_at(d, at + 72) * t.sector_size;
    let n = t.partitions.len();
    &&& 0 <= at && at + 92 <= d.len()
    &&& forall|i: int| 0 <= i < 8 ==> d[at + i] == #[trigger] t.header.signature[i]
    &&& forall|i: int| 0 <= i < 4 ==> d[at + 8 + i] == #[trigger] t.header.revision[i]
    &&& fields::u32_at(d, at + 12) == t.header.header_size
    &&& fields::u32_at(d, at + 16) == fields::sum_of_header(d.subrange(at, at + 92))
    &&& forall|i: int| 0 <= i < 4 ==> d[at + 20 + i] == #[trigger] t.header.reserved[i]
    &&& fields::u64_at(d, at + 24) == lba
    &&& forall|i: int| 0 <= i < 16 ==> d[at + 56 + i] == #[trigger] t.header.disk_guid[i]
    &&& fields::u32_at(d, at + 80) == n
    &&& fields::u32_at(d, at + 84) == 128
    &&& 0 <= array && array + 128 * n <= d.len()
    &&& fields::u32_at(d, at + 88) == checksum::crc32_ieee(d.subrange(array, array + 128 * n))
    &&& forall|i: int|
        0 <= i < n ==> {
            &&& shows_entry(d, array + 128 * i, #[trigger] t.partitions[i])
            &&& shows_name(d, array + 128 * i + 56, t.partitions[i].partition_name)
        }
}

proof fn lemma_shows_copy(d: Seq<u8>, t: TableModel, h: HeaderModel)
    requires
        storage::has_shape(t),
        t.header.number_of_partition_entries > 0,
        storage::holds_copy(d, header::sealed_header(h, t.partitions), t.sector_size, t.partitions),
        h.signature == t.header.signature,
        h.revision == t.header.revision,
        h.header_size == t.header.header_size,
        h.reserved == t.header.reserved,
        h.disk_guid == t.header.disk_guid,
        h.number_of_partition_entries == t.header.number_of_partition_entries,
        h.size_of_partition_entry == t.header.size_of_partition_entry,
    ensures
        shows_copy(d, t, h.primary_lba as int),
        shows_header(
            d,
            h.primary_lba * t.sector_size,
            header::sealed_header(h, t.partitions),
        ),
{
    let sealed = header::sealed_header(h, t.partitions);
    let n = t.partitions.len() as int;
    let at = h.primary_lba * t.sector_size;
    let array = h.partition_entry_lba * t.sector_size;
    fields::law_seal(h, t.partitions);
    lemma_shows_header(d, sealed, t.sector_size, t.partitions);
    assert(0 <= array) by (nonlinear_arith)
        requires
            array == h.partition_entry_lba * t.sector_size,
    ;
    assert forall|i: int| 0 <= i < n implies shows_entry(
        d,
        array + 128 * i,
        #[trigger] t.partitions[i],
    ) && shows_name(d, array + 128 * i + 56, t.partitions[i].partition_name) && d.subrange(
        array + 128 * i,
        array + 128 * i + 128,
    ) == partition::encode_entry(t.partitions[i]) by {
        assert(partition::has_guids(t.partitions[i]));
        lemma_shows_entry(d, sealed, t.sector_size, t.partitions, i);
    }
    assert(shows_entry(d, array + 128 * (n - 1), t.partitions[n - 1]));
    let b = d.subrange(array, array + 128 * n);
    assert forall|i: int, j: int| 0 <= i < n && 0 <= j < 128 implies b[128 * i + j]
        == #[trigger] partition::encode_entry(t.partitions[i])[j] by {
        let s = d.subrange(array + 128 * i, array + 128 * i + 128);
        assert(s == partition::encode_entry(t.partitions[i]));
        assert(b[128 * i + j] == s[j]);
    }
    assert forall|i: int| 0 <= i < n implies (
    #[trigger] t.partitions[i]).partition_type_guid.len() == 16
        && t.partitions[i].unique_parition_guid.len() == 16 by {
        assert(partition::has_guids(t.partitions[i]));
    }
    fields::law_array_checksum(t.partitions, b);
}

/// After a table was written, there is a copy of it in sector 1 and one in the last sector of the
/// disk. Both say the same of the disk and of its usable sectors, and each says where the other one
/// is. The entries of one are in sector 2, those of the other one before the last sector. Here
/// `array` is the least number of sectors that have room for the partition array.
pub proof fn law_both_copies_are_on_disk(t: TableModel, d: Seq<u8>, array: int)
    requires
        d.len() <= u64::MAX,
        storage::has_shape(t),
        storage::has_room(t, d.len() as u64),
        writer::can_write_table(t, d.len() as u64),
        (array - 1) * t.sector_size < 128 * t.partitions.len() <= array * t.sector_size,
    ensures
        ({
            let r = storage::written_disk(t, d);
            let ss = t.sector_size;
            let last = d.len() as int / (ss as int) - 1;
            let own = if t.header.primary_lba == 1 {
                ss as int
            } else {
                last * ss
            };
            let other = if t.header.primary_lba == 1 {
                last * ss
            } else {
                ss as int
            };
            &&& r.len() == d.len()
            &&& shows_copy(r, t, 1)
            &&& shows_copy(r, t, last)
            &&& fields::u64_at(r, ss + 32) == last
            &&& fields::u64_at(r, last * ss + 32) == 1
            &&& fields::u64_at(r, own + 40) == fields::u64_at(r, other + 40)
            &&& fields::u64_at(r, own + 40) == if t.header.primary_lba == 1 {
                t.header.partition_entry_lba + array
            } else {
                2 + array
            }
            &&& fields::u64_at(r, own + 48) == fields::u64_at(r, other + 48)
            &&& fields::u64_at(r, own + 48) == last - 1 - array
            &&& t.header.partition_entry_lba == 2 ==> fields::u64_at(r, own + 72) == 2
                && fields::u64_at(r, other + 72) == last - array
            &&& t.header.partition_entry_lba != 2 ==> fields::u64_at(r, own + 72) == last - array
                && fields::u64_at(r, other + 72) == 2
        }),
{
    lemma_places(t, d.len() as u64, array);
    lemma_shows_copies(t, d);
    fields::law_seal(storage::first_header(t, d.len() as u64), t.partitions);
    fields::law_seal(storage::last_header(t, d.len() as u64), t.partitions);
}

/// What the two headers of a table say, the one in sector 1 and the one in the last sector.
proof fn lemma_places(t: TableModel, len: u64, array: int)
    requires
        storage::has_shape(t),
        storage::has_room(t, len),
        writer::can_write_table(t, len),
        (array - 1) * t.sector_size < 128 * t.partitions.len() <= array * t.sector_size,
    ensures
        ({
            let f = storage::first_header(t, len);
            let l = storage::last_header(t, len);
            let last = len as int / (t.sector_size as int) - 1;
            let in_front = (t.header.primary_lba == 1) == (t.header.partition_entry_lba == 2);
            &&& header::has_arrays(f)
            &&& header::has_arrays(l)
            &&& f.primary_lba == 1 && f.backup_lba == last
            &&& l.primary_lba == last && l.backup_lba == 1
            &&& f.first_usable_lba == l.first_usable_lba
            &&& f.first_usable_lba == if t.header.primary_lba == 1 {
                t.header.partition_entry_lba + array
            } else {
                2 + array
            }
            &&& f.last_usable_lba == l.last_usable_lba
            &&& f.last_usable_lba == last - 1 - array
            &&& in_front ==> f.partition_entry_lba == 2 && l.partition_entry_lba == last - array
            &&& !in_front ==> l.partition_entry_lba == 2 && f.partition_entry_lba == last - array
        }),
{
    lemma_twins(t, len);
    law_two_headers(t, len, array);
}

/// The two headers of a table are those in sector 1 and in the last sector.
proof fn lemma_twins(t: TableModel, len: u64)
    requires
        storage::has_shape(t),
        storage::has_room(t, len),
        header::can_update(t.header, len, t.sector_size),
    ensures
        ({
            let h = writer::placed_header(t, len);
            let m = writer::mirrored_header(h);
            let f = storage::first_header(t, len);
            let l = storage::last_header(t, len);
            &&& t.header.primary_lba == 1 ==> f == h && l == m
            &&& t.header.primary_lba != 1 ==> f == m && l == h
        }),
{
    storage::lemma_geometry(t, len);
}

proof fn lemma_shows_copies(t: TableModel, d: Seq<u8>)
    requires
        d.len() <= u64::MAX,
        storage::has_shape(t),
        storage::has_room(t, d.len() as u64),
        writer::can_write_table(t, d.len() as u64),
    ensures
        ({
            let len = d.len() as u64;
            let r = storage::written_disk(t, d);
            let f = storage::first_header(t, len);
            let l = storage::last_header(t, len);
            &&& r.len() == d.len()
            &&& shows_copy(r, t, f.primary_lba as int)
            &&& shows_copy(r, t, l.primary_lba as int)
            &&& shows_header(
                r,
                f.primary_lba * t.sector_size,
                header::sealed_header(f, t.partitions),
            )
            &&& shows_header(
                r,
                l.primary_lba * t.sector_size,
                header::sealed_header(l, t.partitions),
            )
        }),
{
    let len = d.len() as u64;
    let r = storage::written_disk(t, d);
    storage::law_write_puts_both_copies(t, d);
    lemma_shows_copy(r, t, storage::first_header(t, len));
    lemma_shows_copy(r, t, storage::last_header(t, len));
}

/// What a disk holds from a position on.
pub open spec fn rest_of(d: Seq<u8>, at: int) -> Seq<u8> {
    if 0 <= at <= d.len() {
        d.subrange(at, d.len() as int)
    } else {
        Seq::empty()
    }
}

/// Whether the header at position `at` of a disk is the one that decides: that in sector 1, or that
/// in the last sector where there is none to read in sector 1.
pub open spec fn is_deciding(d: Seq<u8>, sector_size: u64, at: int) -> bool {
    ||| at == sector_size
    ||| {
        &&& header::parse_header(rest_of(d, sector_size as int)) is Err
        &&& 0 < sector_size <= d.len()
        &&& at == (d.len() as int / sector_size as int - 1) * sector_size
    }
}

proof fn lemma_rest_of(d: Seq<u8>, at: int)
    requires
        at >= 0,
    ensures
        rest_of(d, at) == bytes::tail_at(d, at),
{
    assert(rest_of(d, at) =~= bytes::tail_at(d, at));
}

/// Where neither header can be read, reading a disk tells what is wrong with both, or only that
/// there is no signature if that is so with both. There is no result if the disk has no last
/// sector.
pub proof fn law_no_header(d: Seq<u8>, sector_size: u64, primary: ErrorModel)
    requires
        header::parse_header(rest_of(d, sector_size as int)) == Err::<HeaderModel, ErrorModel>(
            primary,
        ),
    ensures
        sector_size == 0 || d.len() < sector_size ==> reader::read_outcome(d, sector_size) is None,
        0 < sector_size <= d.len() ==> ({
            let last = rest_of(d, (d.len() as int / sector_size as int - 1) * sector_size);
            header::parse_header(last) matches Err(backup) ==> reader::read_outcome(
                d,
                sector_size,
            ) == Some(
                Err::<TableModel, ErrorModel>(
                    if primary is InvalidSignature && backup is InvalidSignature {
                        ErrorModel::InvalidSignature
                    } else {
                        ErrorModel::ReadError(Box::new(primary), Box::new(backup))
                    },
                ),
            )
        }),
{
    lemma_rest_of(d, sector_size as int);
    if 0 < sector_size <= d.len() {
        reader::lemma_backup_offset(d.len() as int, sector_size);
        lemma_rest_of(d, reader::backup_offset(d.len() as int, sector_size));
    }
}

/// Where a header decides, its entries do.
proof fn lemma_deciding(d: Seq<u8>, sector_size: u64, at: int, h: HeaderModel)
    requires
        is_deciding(d, sector_size, at),
        header::parse_header(rest_of(d, at)) == Ok::<HeaderModel, ErrorModel>(h),
    ensures
        reader::read_outcome(d, sector_size) == reader::rest_outcome(
            d,
            h,
            sector_size,
            Seq::empty(),
            Seq::empty(),
        ),
        at >= 0,
{
    lemma_rest_of(d, sector_size as int);
    if at != sector_size {
        reader::lemma_backup_offset(d.len() as int, sector_size);
    }
    lemma_rest_of(d, at);
}

/// Where each of the first `n` entries of a header is on a disk, `raw` are the bytes of these, one
/// entry right after the other, and `entries` is what they say.
pub open spec fn are_entries_at(
    d: Seq<u8>,
    h: HeaderModel,
    sector_size: u64,
    entries: Seq<EntryModel>,
    raw: Seq<u8>,
) -> bool {
    &&& entries.len() == h.number_of_partition_entries
    &&& raw.len() == 128 * entries.len()
    &&& forall|i: int|
        0 <= i < entries.len() ==> {
            let at = h.partition_entry_lba * sector_size + i * h.size_of_partition_entry;
            &&& at + 128 <= d.len()
            &&& raw.subrange(128 * i, 128 * i + 128) == d.subrange(at, at + 128)
            &&& #[trigger] entries[i] == partition::decode_entry(d.subrange(at, at + 128))
        }
}

proof fn lemma_rest_of_entries(
    d: Seq<u8>,
    h: HeaderModel,
    sector_size: u64,
    entries: Seq<EntryModel>,
    raw: Seq<u8>,
    n: int,
)
    requires
        d.len() <= u64::MAX,
        are_entries_at(d, h, sector_size, entries, raw),
        0 <= n <= entries.len(),
    ensures
        reader::rest_outcome(d, h, sector_size, entries.take(n), raw.take(128 * n))
            == reader::told(reader::assembled(h, sector_size, entries, raw)),
    decreases entries.len() - n,
{
    if n == entries.len() {
        assert(entries.take(n) =~= entries);
        assert(raw.take(128 * n) =~= raw);
    } else {
        let at = header::entry_offset(h, sector_size, n);
        let w = d.subrange(at, at + 128);
        header::lemma_entry_offset_bound(h, sector_size, n, n);
        assert(entries[n] == partition::decode_entry(w));
        reader::lemma_window_entry(d, at);
        assert(reader::window(d, at, 128) =~= w);
        assert(entries.take(n).push(entries[n]) =~= entries.take(n + 1));
        assert(raw.subrange(128 * n, 128 * n + 128) == w);
        assert(raw.take(128 * n) + w =~= raw.take(128 * (n + 1)));
        lemma_rest_of_entries(d, h, sector_size, entries, raw, n + 1);
    }
}

/// Where a header decides that has all its entries on the disk, what is read is told by the
/// checksum of these. If it is the one that the header says, there is a table. There is no result
/// if the entries do not take as many bytes, counted in 32 bits, as the header says, or if they
/// tell no alignment.
pub proof fn law_whole_array(
    d: Seq<u8>,
    sector_size: u64,
    at: int,
    h: HeaderModel,
    entries: Seq<EntryModel>,
    raw: Seq<u8>,
)
    requires
        d.len() <= u64::MAX,
        is_deciding(d, sector_size, at),
        header::parse_header(rest_of(d, at)) == Ok::<HeaderModel, ErrorModel>(h),
        are_entries_at(d, h, sector_size, entries, raw),
    ensures
        ({
            let size = h.number_of_partition_entries * h.size_of_partition_entry;
            let fits = size <= u32::MAX && (raw.len() - size) % 0x1_0000_0000 == 0;
            let sum = checksum::crc32_ieee(raw);
            let r = reader::read_outcome(d, sector_size);
            &&& !fits ==> r is None
            &&& fits && h.partition_entry_array_crc32 != sum ==> r == Some(
                Err::<TableModel, ErrorModel>(
                    ErrorModel::InvalidPartitionEntryArrayChecksum(
                        h.partition_entry_array_crc32,
                        sum,
                    ),
                ),
            )
            &&& fits && h.partition_entry_array_crc32 == sum && table::has_alignment(
                h.first_usable_lba,
                entries,
            ) ==> r == Some(
                Ok::<TableModel, ErrorModel>(
                    TableModel {
                        sector_size,
                        header: h,
                        partitions: entries,
                        align: table::alignment(h.first_usable_lba, entries),
                    },
                ),
            )
            &&& fits && h.partition_entry_array_crc32 == sum && !table::has_alignment(
                h.first_usable_lba,
                entries,
            ) ==> r is None
        }),
{
    let size = h.number_of_partition_entries * h.size_of_partition_entry;
    lemma_deciding(d, sector_size, at, h);
    lemma_rest_of_entries(d, h, sector_size, entries, raw, 0);
    assert(entries.take(0) =~= Seq::empty());
    assert(raw.take(0) =~= Seq::empty());
    assert(h.size_of_partition_entry * h.number_of_partition_entries == size) by (nonlinear_arith)
        requires
            size == h.number_of_partition_entries * h.size_of_partition_entry,
    ;
    assert(0 <= size) by (nonlinear_arith)
        requires
            size == h.number_of_partition_entries * h.size_of_partition_entry,
    ;
    lemma_same_in_32_bits(raw.len() as int, size);
}

proof fn lemma_same_in_32_bits(k: int, size: int)
    requires
        0 <= k,
        0 <= size,
    ensures
        size <= u32::MAX ==> ((k % 0x1_0000_0000 == size) <==> ((k - size) % 0x1_0000_0000 == 0)),
{
}

proof fn lemma_short_rest(
    d: Seq<u8>,
    h: HeaderModel,
    sector_size: u64,
    entries: Seq<EntryModel>,
    raw: Seq<u8>,
    k: int,
)
    requires
        entries.len() <= k < h.number_of_partition_entries,
        h.partition_entry_lba * sector_size + k * h.size_of_partition_entry <= u64::MAX,
        h.partition_entry_lba * sector_size + k * h.size_of_partition_entry + 128 > d.len(),
    ensures
        reader::rest_outcome(d, h, sector_size, entries, raw) == Some(
            Err::<TableModel, ErrorModel>(ErrorModel::Deserialize),
        ),
    decreases k - entries.len(),
{
    let n = entries.len() as int;
    let offset = header::entry_offset(h, sector_size, n);
    header::lemma_entry_offset_bound(h, sector_size, n, k);
    if n < k {
        if let Ok(e) = reader::parse_entry(bytes::tail_at(d, offset)) {
            lemma_short_rest(
                d,
                h,
                sector_size,
                entries.push(e),
                raw + reader::window(d, offset, partition::ENTRY_SIZE as int),
                k,
            );
        }
    }
}

/// Where a header decides that has an entry beyond the end of the disk, the entries cannot be
/// deserialized.
pub proof fn law_short_array(d: Seq<u8>, sector_size: u64, at: int, h: HeaderModel, k: int)
    requires
        is_deciding(d, sector_size, at),
        header::parse_header(rest_of(d, at)) == Ok::<HeaderModel, ErrorModel>(h),
        0 <= k < h.number_of_partition_entries,
        h.partition_entry_lba * sector_size + k * h.size_of_partition_entry <= u64::MAX,
        h.partition_entry_lba * sector_size + k * h.size_of_partition_entry + 128 > d.len(),
    ensures
        reader::read_outcome(d, sector_size) == Some(
            Err::<TableModel, ErrorModel>(ErrorModel::Deserialize),
        ),
{
    lemma_deciding(d, sector_size, at, h);
    lemma_short_rest(d, h, sector_size, Seq::empty(), Seq::empty(), k);
}

proof fn lemma_lost_entry(
    d: Seq<u8>,
    h: HeaderModel,
    sector_size: u64,
    entries: Seq<EntryModel>,
    raw: Seq<u8>,
    k: int,
)
    requires
        d.len() <= u64::MAX,
        entries.len() <= k < h.number_of_partition_entries,
        forall|i: int|
            0 <= i < k ==> #[trigger] header::entry_offset(h, sector_size, i) + 128 <= d.len(),
        header::entry_offset(h, sector_size, k) > u64::MAX,
    ensures
        reader::rest_outcome(d, h, sector_size, entries, raw) is None,
    decreases k - entries.len(),
{
    let n = entries.len() as int;
    let offset = header::entry_offset(h, sector_size, n);
    if n < k {
        header::lemma_entry_offset_bound(h, sector_size, n, n);
        assert(offset + 128 <= d.len());
        let e = partition::decode_entry(bytes::tail_at(d, offset));
        assert(reader::parse_entry(bytes::tail_at(d, offset)) == Ok::<EntryModel, ErrorModel>(e));
        lemma_lost_entry(
            d,
            h,
            sector_size,
            entries.push(e),
            raw + reader::window(d, offset, partition::ENTRY_SIZE as int),
            k,
        );
    }
}

/// Where a header decides that has an entry at a position that is too large for a number, with all
/// the entries before on the disk, there is no result.
pub proof fn law_lost_entry(d: Seq<u8>, sector_size: u64, at: int, h: HeaderModel, k: int)
    requires
        d.len() <= u64::MAX,
        is_deciding(d, sector_size, at),
        header::parse_header(rest_of(d, at)) == Ok::<HeaderModel, ErrorModel>(h),
        0 <= k < h.number_of_partition_entries,
        forall|i: int|
            0 <= i < k ==> h.partition_entry_lba * sector_size + #[trigger] (i
                * h.size_of_partition_entry) + 128 <= d.len(),
        h.partition_entry_lba * sector_size + k * h.size_of_partition_entry > u64::MAX,
    ensures
        reader::read_outcome(d, sector_size) is None,
{
    lemma_deciding(d, sector_size, at, h);
    assert forall|i: int| 0 <= i < k implies #[trigger] header::entry_offset(h, sector_size, i)
        + 128 <= d.len() by {
        assert(h.partition_entry_lba * sector_size + (i * h.size_of_partition_entry) + 128
            <= d.len());
    }
    lemma_lost_entry(d, h, sector_size, Seq::empty(), Seq::empty(), k);
}

proof fn lemma_rest_is_on_disk(
    d: Seq<u8>,
    h: HeaderModel,
    sector_size: u64,
    entries: Seq<EntryModel>,
    raw: Seq<u8>,
    t: TableModel,
    k: int,
)
    requires
        reader::rest_outcome(d, h, sector_size, entries, raw) == Some(
            Ok::<TableModel, ErrorModel>(t),
        ),
        entries.len() <= h.number_of_partition_entries,
        0 <= k < h.number_of_partition_entries,
        k < entries.len() ==> entries[k] == partition::decode_entry(
            rest_of(d, header::entry_offset(h, sector_size, k)),
        ) && header::entry_offset(h, sector_size, k) + 128 <= d.len(),
    ensures
        t.header == h,
        t.sector_size == sector_size,
        t.partitions.len() == h.number_of_partition_entries,
        t.partitions[k] == partition::decode_entry(
            rest_of(d, header::entry_offset(h, sector_size, k)),
        ),
        header::entry_offset(h, sector_size, k) + 128 <= d.len(),
    decreases h.number_of_partition_entries - entries.len(),
{
    if entries.len() < h.number_of_partition_entries {
        let n = entries.len() as int;
        let offset = header::entry_offset(h, sector_size, n);
        let tail = bytes::tail_at(d, offset);
        let e = partition::decode_entry(tail);
        header::lemma_entry_offset_bound(h, sector_size, n, n);
        assert(reader::parse_entry(tail) is Ok);
        lemma_rest_of(d, offset);
        lemma_rest_is_on_disk(
            d,
            h,
            sector_size,
            entries.push(e),
            raw + reader::window(d, offset, partition::ENTRY_SIZE as int),
            t,
            k,
        );
    }
}

/// Whether a table is the one on a disk whose header is at position `at`: the header is there,
/// with its signature, its revision, its size and the checksum of its bytes, and each of as many
/// entries as it says is where it says.
pub open spec fn is_table_at(d: Seq<u8>, t: TableModel, at: int) -> bool {
    let ss = t.sector_size;
    &&& shows_header(d, at, t.header)
    &&& fields::starts_with_signature(d.subrange(at, at + 92))
    &&& d[at + 8] == 0 && d[at + 9] == 0 && d[at + 10] == 1 && d[at + 11] == 0
    &&& fields::u32_at(d, at + 12) == 92
    &&& fields::u32_at(d, at + 16) == fields::sum_of_header(d.subrange(at, at + 92))
    &&& t.partitions.len() == fields::u32_at(d, at + 80)
    &&& forall|i: int|
        0 <= i < t.partitions.len() ==> {
            let entry = t.header.partition_entry_lba * ss + i * t.header.size_of_partition_entry;
            &&& shows_entry(d, entry, #[trigger] t.partitions[i])
            &&& t.partitions[i] == partition::decode_entry(d.subrange(entry, entry + 128))
        }
}

proof fn lemma_header_at(d: Seq<u8>, at: int, h: HeaderModel)
    requires
        0 <= at,
        header::parse_header(rest_of(d, at)) == Ok::<HeaderModel, ErrorModel>(h),
    ensures
        shows_header(d, at, h),
        fields::starts_with_signature(d.subrange(at, at + 92)),
        d[at + 8] == 0 && d[at + 9] == 0 && d[at + 10] == 1 && d[at + 11] == 0,
        fields::u32_at(d, at + 12) == 92,
        fields::u32_at(d, at + 16) == fields::sum_of_header(d.subrange(at, at + 92)),
{
    let s = rest_of(d, at);
    fields::law_header_check(s);
    fields::law_header_fields(s);
    let w = d.subrange(at, at + 92);
    assert(s.subrange(0, 16) =~= w.subrange(0, 16));
    assert(s.subrange(20, 92) =~= w.subrange(20, 92));
    assert(is_copied(d, at, s, 92));
    lemma_numbers_copied(d, at, s);
    assert(s[8] == d[at + 8] && s[9] == d[at + 9] && s[10] == d[at + 10] && s[11] == d[at + 11]);
}

proof fn lemma_entry_at(d: Seq<u8>, at: int)
    requires
        0 <= at,
        at + 128 <= d.len(),
    ensures
        shows_entry(d, at, partition::decode_entry(rest_of(d, at))),
        partition::decode_entry(rest_of(d, at)) == partition::decode_entry(
            d.subrange(at, at + 128),
        ),
{
    let s = rest_of(d, at);
    lemma_rest_of(d, at);
    reader::lemma_window_entry(d, at);
    assert(reader::window(d, at, 128) =~= d.subrange(at, at + 128));
    fields::law_entry_fields(s);
    assert(is_copied(d, at, s, 128));
    lemma_u64_copied(d, at, s, 128, 32);
    lemma_u64_copied(d, at, s, 128, 40);
    lemma_u64_copied(d, at, s, 128, 48);
}

/// A table that is read from a disk is the one on it, with its header in sector 1, or in the last
/// sector where there is none to read in sector 1.
pub proof fn law_read_table_is_on_disk(d: Seq<u8>, sector_size: u64, t: TableModel)
    requires
        reader::read_outcome(d, sector_size) == Some(Ok::<TableModel, ErrorModel>(t)),
    ensures
        t.sector_size == sector_size,
        exists|at: int| #[trigger] is_table_at(d, t, at) && is_deciding(d, sector_size, at),
{
    let at = if header::parse_header(rest_of(d, sector_size as int)) is Ok {
        sector_size as int
    } else {
        (d.len() as int / sector_size as int - 1) * sector_size
    };
    lemma_rest_of(d, sector_size as int);
    if at != sector_size {
        reader::lemma_backup_offset(d.len() as int, sector_size);
    }
    lemma_rest_of(d, at);
    assert(header::parse_header(rest_of(d, at)) is Ok);
    lemma_table_at(d, sector_size, at, t);
}

proof fn lemma_table_at(d: Seq<u8>, sector_size: u64, at: int, t: TableModel)
    requires
        is_deciding(d, sector_size, at),
        header::parse_header(rest_of(d, at)) is Ok,
        reader::read_outcome(d, sector_size) == Some(Ok::<TableModel, ErrorModel>(t)),
    ensures
        t.sector_size == sector_size,
        is_table_at(d, t, at),
{
    let h = header::parse_header(rest_of(d, at))->Ok_0;
    let none = Seq::<EntryModel>::empty();
    lemma_deciding(d, sector_size, at, h);
    reader::law_read_table_is_readable(d, sector_size, t);
    lemma_header_at(d, at, h);
    if h.number_of_partition_entries > 0 {
        lemma_rest_is_on_disk(d, h, sector_size, none, Seq::empty(), t, 0);
    }
    assert forall|i: int| 0 <= i < t.partitions.len() implies ({
        let entry = t.header.partition_entry_lba * sector_size + i
            * t.header.size_of_partition_entry;
        &&& shows_entry(d, entry, #[trigger] t.partitions[i])
        &&& t.partitions[i] == partition::decode_entry(d.subrange(entry, entry + 128))
    }) by {
        lemma_rest_is_on_disk(d, h, sector_size, none, Seq::empty(), t, i);
        header::lemma_entry_offset_bound(h, sector_size, i, i);
        lemma_entry_at(d, header::entry_offset(h, sector_size, i));
    }
}

/// In a table that is read from a disk, every partition starts at a multiple of the alignment.
pub proof fn law_read_table_is_aligned(d: Seq<u8>, sector_size: u64, t: TableModel)
    requires
        reader::read_outcome(d, sector_size) == Some(Ok::<TableModel, ErrorModel>(t)),
    ensures
        t.align > 0,
        forall|i: int|
            0 <= i < t.partitions.len() && meaning::is_taken(#[trigger] t.partitions[i])
                ==> t.partitions[i].starting_lba as int % (t.align as int) == 0,
        meaning::none_taken(t.partitions) ==> t.align == 2048,
{
    reader::law_read_table_is_readable(d, sector_size, t);
    assert forall|i: int| 0 <= i < t.partitions.len() implies (
    #[trigger] t.partitions[i]).partition_type_guid.len() == 16
        && t.partitions[i].unique_parition_guid.len() == 16 by {
        assert(partition::has_guids(t.partitions[i]));
    }
    meaning::law_alignment(t.header.first_usable_lba, t.partitions);
}

/// Finding the table of a disk tries sectors of 512 bytes, and those of 4096 bytes only if there
/// was an error with the others.
pub proof fn law_find(d: Seq<u8>)
    ensures
        reader::read_outcome(d, 512) matches Some(Err(_)) ==> reader::find_outcome(d)
            == reader::read_outcome(d, 4096),
        !(reader::read_outcome(d, 512) matches Some(Err(_))) ==> reader::find_outcome(d)
            == reader::read_outcome(d, 512),
{
}

/// What a result of reading is told by: the table that was read, or which error there was.
pub proof fn law_told(r: Result<table::GPT, Error>)
    ensures
        r matches Ok(t) ==> reader::result_model(r) == Ok::<TableModel, ErrorModel>(t@),
        r matches Err(e) ==> reader::result_model(r) == Err::<TableModel, ErrorModel>(e@),
{
}

/// Every error has its own name, and tells the numbers and errors in it.
pub proof fn law_error_names(e: Error)
    ensures
        e is Deserialize <==> e@ is Deserialize,
        e is Io <==> e@ is Io,
        e is InvalidSignature <==> e@ is InvalidSignature,
        e is InvalidRevision <==> e@ is InvalidRevision,
        e is InvalidHeaderSize <==> e@ is InvalidHeaderSize,
        e is NoSpaceLeft <==> e@ is NoSpaceLeft,
        e is ConflictPartitionGUID <==> e@ is ConflictPartitionGUID,
        e is InvalidPartitionBoundaries <==> e@ is InvalidPartitionBoundaries,
        e is InvalidChecksum <==> e@ is InvalidChecksum,
        e matches Error::InvalidChecksum(x, y) ==> e@ == ErrorModel::InvalidChecksum(x, y),
        e is InvalidPartitionEntryArrayChecksum <==> e@ is InvalidPartitionEntryArrayChecksum,
        e matches Error::InvalidPartitionEntryArrayChecksum(x, y) ==> e@
            == ErrorModel::InvalidPartitionEntryArrayChecksum(x, y),
        e is InvalidPartitionNumber <==> e@ is InvalidPartitionNumber,
        e matches Error::InvalidPartitionNumber(i) ==> e@ == ErrorModel::InvalidPartitionNumber(i),
        e matches Error::ReadError(primary, backup) ==> e@ == ErrorModel::ReadError(
            Box::new(primary@),
            Box::new(backup@),
        ),
        e is ReadError <==> e@ is ReadError,
{
    reveal_with_fuel(Error::model, 2);
}

/// A reader asks for the 92 bytes of sector 1 first, then for the length of the disk and the 92
/// bytes of the last sector if it has to, and for 128 bytes for each entry.
pub proof fn law_request(m: ReaderModel)
    ensures
        match m.stage {
            StageModel::Primary => reader::requested(m) == (Request::Read {
                offset: m.sector_size,
                len: 92,
            }),
            StageModel::Length { primary } => reader::requested(m) == Request::Length,
            StageModel::Backup { primary, offset } => reader::requested(m) == (Request::Read {
                offset,
                len: 92,
            }),
            StageModel::Entries { header, partitions, raw, offset } => reader::requested(m) == (
            Request::Read { offset, len: 128 }),
            StageModel::Finished(r) => reader::requested(m) == Request::Nothing,
        },
{
}

/// Whether a reader has nothing left to try and tells an error, or starts over with the other
/// sector size that it has.
pub open spec fn has_given_up(m: ReaderModel, e: Error, next: Option<ReaderModel>) -> bool {
    &&& m.retry matches Some(other) ==> next == Some(
        ReaderModel { sector_size: other, retry: None, stage: StageModel::Primary },
    )
    &&& m.retry is None ==> next == Some(
        ReaderModel {
            sector_size: m.sector_size,
            retry: None,
            stage: StageModel::Finished(Err(e)),
        },
    )
}

/// Whether a reader has gone on to wait for something else.
pub open spec fn has_gone_on(
    m: ReaderModel,
    stage: StageModel,
    next: Option<ReaderModel>,
) -> bool {
    next == Some(ReaderModel { sector_size: m.sector_size, retry: m.retry, stage })
}

/// What becomes of a reader where the disk does not give what it asked for. A seek that fails ends
/// an attempt with that error. A read that fails sends the reader from the primary header to the
/// length of the disk, and so to the backup header; with that one it tells both errors.
pub proof fn law_failed_answer(m: ReaderModel, a: Answer, next: Option<ReaderModel>)
    requires
        reader::is_next(m, a, next),
    ensures
        a matches Answer::Unreachable(e) ==> has_given_up(m, Error::Io(e), next),
        a matches Answer::Failed(e) ==> {
            &&& m.stage is Primary ==> has_gone_on(
                m,
                StageModel::Length { primary: Error::Deserialize(e) },
                next,
            )
            &&& m.stage matches StageModel::Backup { primary, offset } ==> has_given_up(
                m,
                Error::ReadError(Box::new(primary), Box::new(Error::Deserialize(e))),
                next,
            )
            &&& m.stage is Entries ==> has_given_up(m, Error::Deserialize(e), next)
        },
{
}

/// What becomes of a reader that is told the length of the disk: it goes on to the last sector, if
/// there is one.
pub proof fn law_length_answer(m: ReaderModel, len: u64, next: Option<ReaderModel>, primary: Error)
    requires
        m.stage == (StageModel::Length { primary }),
        reader::is_next(m, Answer::Length(len), next),
    ensures
        m.sector_size == 0 || len < m.sector_size ==> next is None,
        0 < m.sector_size <= len ==> exists|offset: u64|
            offset == (len / m.sector_size - 1) * m.sector_size && #[trigger] has_gone_on(
                m,
                StageModel::Backup { primary, offset },
                next,
            ),
{
    if 0 < m.sector_size <= len {
        reader::lemma_backup_offset(len as int, m.sector_size);
        let offset = reader::backup_offset(len as int, m.sector_size) as u64;
        assert(has_gone_on(m, StageModel::Backup { primary, offset }, next));
    }
}

/// What becomes of a reader that is given the bytes of a header. With a good one it goes on to the
/// first entry, if there is one. Without, it goes from the primary header to the length of the
/// disk; with the backup header it tells both errors, or only that there is no signature if that
/// is so with both.
pub proof fn law_header_answer(m: ReaderModel, b: Vec<u8>, next: Option<ReaderModel>)
    requires
        m.stage is Primary || m.stage is Backup,
        reader::is_next(m, Answer::Bytes(b), next),
    ensures
        header::parse_header(b@) matches Ok(h) ==> h.number_of_partition_entries > 0 ==> {
            let first = h.partition_entry_lba * m.sector_size;
            &&& first > u64::MAX ==> next is None
            &&& first <= u64::MAX ==> has_gone_on(
                m,
                StageModel::Entries {
                    header: h,
                    partitions: Seq::empty(),
                    raw: Seq::empty(),
                    offset: first as u64,
                },
                next,
            )
        },
        header::parse_header(b@) matches Err(told) ==> exists|e: Error| #[trigger]
            e@ == told && match m.stage {
                StageModel::Backup { primary, offset } => has_given_up(
                    m,
                    if primary is InvalidSignature && e is InvalidSignature {
                        Error::InvalidSignature
                    } else {
                        Error::ReadError(Box::new(primary), Box::new(e))
                    },
                    next,
                ),
                _ => has_gone_on(m, StageModel::Length { primary: e }, next),
            },
{
    match header::parse_header(b@) {
        Ok(h) => {
            assert(0 <= h.partition_entry_lba * m.sector_size) by (nonlinear_arith);
        },
        Err(told) => {
            let e = choose|e: Error|
                e@ == told && next == Some(#[trigger] reader::after_read_error(m, e));
            assert(e@ == told);
        },
    }
}

/// What becomes of a reader that is given the bytes of an entry. With fewer than 128 it tells that
/// they cannot be deserialized. With these it has one entry and the bytes of it more, and goes on
/// to the next one, if there is one.
pub proof fn law_entry_answer(
    m: ReaderModel,
    b: Vec<u8>,
    next: Option<ReaderModel>,
    h: HeaderModel,
    entries: Seq<EntryModel>,
    raw: Seq<u8>,
    offset: u64,
)
    requires
        m.stage == (StageModel::Entries { header: h, partitions: entries, raw, offset }),
        reader::is_next(m, Answer::Bytes(b), next),
    ensures
        b@.len() < 128 ==> exists|e: Error| #[trigger]
            e@ == ErrorModel::Deserialize && has_given_up(m, e, next),
        b@.len() >= 128 && entries.len() + 1 < h.number_of_partition_entries ==> {
            let following = h.partition_entry_lba * m.sector_size + (entries.len() + 1)
                * h.size_of_partition_entry;
            &&& following > u64::MAX ==> next is None
            &&& following <= u64::MAX ==> has_gone_on(
                m,
                StageModel::Entries {
                    header: h,
                    partitions: entries.push(partition::decode_entry(b@)),
                    raw: raw + b@.subrange(0, 128),
                    offset: following as u64,
                },
                next,
            )
        },
{
    let following = h.partition_entry_lba * m.sector_size + (entries.len() + 1)
        * h.size_of_partition_entry;
    assert(following >= 0) by (nonlinear_arith)
        requires
            following == h.partition_entry_lba * m.sector_size + (entries.len() + 1)
                * h.size_of_partition_entry,
    ;
    if b@.len() < 128 {
        let e = choose|e: Error|
            e@ == ErrorModel::Deserialize && next == Some(
                #[trigger] reader::after_read_error(m, e),
            );
        assert(e@ == ErrorModel::Deserialize);
    } else {
        assert(b@.take(128) =~= b@.subrange(0, 128));
    }
}

pub proof fn lemma_decoded_header(s: Seq<u8>)
    requires
        s.len() >= 92,
    ensures
        shows_header(s, 0, header::decode_header(s)),
{
    fields::law_header_fields(s);
}

pub proof fn lemma_both_copies(t: TableModel, d: Seq<u8>)
    requires
        d.len() <= u64::MAX,
        storage::has_shape(t),
        storage::has_room(t, d.len() as u64),
        writer::can_write_table(t, d.len() as u64),
    ensures
        storage::written_disk(t, d).len() == d.len(),
        shows_copy(storage::written_disk(t, d), t, 1),
        shows_copy(
            storage::written_disk(t, d),
            t,
            d.len() as int / (t.sector_size as int) - 1,
        ),
{
    storage::lemma_geometry(t, d.len() as u64);
    lemma_shows_copies(t, d);
}

/// Whether a table is what reading a disk with sectors of the given size can give: it is the one on
/// the disk, and all its partitions start at multiples of its alignment.
pub open spec fn is_read_from(d: Seq<u8>, sector_size: u64, t: TableModel) -> bool {
    &&& t.sector_size == sector_size
    &&& exists|at: int| #[trigger] is_table_at(d, t, at) && is_deciding(d, sector_size, at)
    &&& t.align > 0
    &&& forall|i: int|
        0 <= i < t.partitions.len() && meaning::is_taken(#[trigger] t.partitions[i])
            ==> t.partitions[i].starting_lba as int % (t.align as int) == 0
    &&& meaning::none_taken(t.partitions) ==> t.align == 2048
}

pub proof fn lemma_read_from(d: Seq<u8>, sector_size: u64, t: TableModel)
    requires
        reader::read_outcome(d, sector_size) == Some(Ok::<TableModel, ErrorModel>(t)),
    ensures
        is_read_from(d, sector_size, t),
{
    law_read_table_is_on_disk(d, sector_size, t);
    law_read_table_is_aligned(d, sector_size, t);
}

/// A header can be written with some entries just where it has the size of a header, says of the
/// entries how many bytes they take, counted in 32 bits, has no more entries than there are, and no
/// position on the disk is too large.
pub proof fn law_can_write(h: HeaderModel, sector_size: u64, entries: Seq<EntryModel>)
    ensures
        header::can_write(h, sector_size, entries) <==> {
            let n = h.number_of_partition_entries;
            let size = h.size_of_partition_entry;
            &&& h.header_size == 92
            &&& n * size <= u32::MAX
            &&& (128 * entries.len() - n * size) % 0x1_0000_0000 == 0
            &&& n <= entries.len()
            &&& h.primary_lba * sector_size <= u64::MAX
            &&& n > 0 ==> h.partition_entry_lba * sector_size + (n - 1) * size <= u64::MAX
        },
{
    let n = h.number_of_partition_entries;
    let size = h.size_of_partition_entry;
    let p = n * size;
    assert(size * n == p) by (nonlinear_arith)
        requires
            p == n * size,
    ;
    assert(0 <= p) by (nonlinear_arith)
        requires
            p == n * size,
    ;
    lemma_same_in_32_bits((128 * entries.len()) as int, p);
}

/// What a header, all its entries and the bytes of these make up: nothing where they do not take as
/// many bytes, counted in 32 bits, as the header says; an error where they have another checksum;
/// nothing where they tell no alignment; and otherwise the table of all that.
pub proof fn law_assembled(
    h: HeaderModel,
    sector_size: u64,
    entries: Seq<EntryModel>,
    raw: Seq<u8>,
)
    ensures
        ({
            let size = h.number_of_partition_entries * h.size_of_partition_entry;
            let fits = size <= u32::MAX && (128 * entries.len() - size) % 0x1_0000_0000 == 0;
            let stored = h.partition_entry_array_crc32;
            let sum = checksum::crc32_ieee(raw);
            let r = reader::assembled(h, sector_size, entries, raw);
            &&& !fits ==> r is None
            &&& fits && stored != sum ==> r == Some(
                Err::<TableModel, Error>(Error::InvalidPartitionEntryArrayChecksum(stored, sum)),
            )
            &&& fits && stored == sum && !table::has_alignment(h.first_usable_lba, entries)
                ==> r is None
            &&& fits && stored == sum && table::has_alignment(h.first_usable_lba, entries) ==> {
                &&& r matches Some(Ok(t))
                &&& t.sector_size == sector_size
                &&& t.header == h
                &&& t.partitions == entries
                &&& t.align == table::alignment(h.first_usable_lba, entries)
            }
        }),
{
    let size = h.number_of_partition_entries * h.size_of_partition_entry;
    assert(h.size_of_partition_entry * h.number_of_partition_entries == size) by (nonlinear_arith)
        requires
            size == h.number_of_partition_entries * h.size_of_partition_entry,
    ;
    assert(0 <= size) by (nonlinear_arith)
        requires
            size == h.number_of_partition_entries * h.size_of_partition_entry,
    ;
    lemma_same_in_32_bits((128 * entries.len()) as int, size);
}

/// Whether a reader has become what a header and all its entries make up.
pub open spec fn has_assembled(
    m: ReaderModel,
    h: HeaderModel,
    entries: Seq<EntryModel>,
    raw: Seq<u8>,
    next: Option<ReaderModel>,
) -> bool {
    match reader::assembled(h, m.sector_size, entries, raw) {
        None => next is None,
        Some(Err(e)) => has_given_up(m, e, next),
        Some(Ok(t)) => has_gone_on(m, StageModel::Finished(Ok(t)), next),
    }
}

/// What becomes of a reader that is given the bytes of a header without entries, or those of the
/// last entry: it has a result.
pub proof fn law_last_answer(m: ReaderModel, b: Vec<u8>, next: Option<ReaderModel>)
    requires
        reader::is_next(m, Answer::Bytes(b), next),
    ensures
        m.stage is Primary || m.stage is Backup ==> (header::parse_header(b@) matches Ok(h)
            ==> h.number_of_partition_entries == 0 ==> has_assembled(
            m,
            h,
            Seq::empty(),
            Seq::empty(),
            next,
        )),
        m.stage matches StageModel::Entries { header: h, partitions: entries, raw, offset }
            ==> b@.len() >= 128 && entries.len() + 1 >= h.number_of_partition_entries
            ==> has_assembled(
            m,
            h,
            entries.push(partition::decode_entry(b@)),
            raw + b@.subrange(0, 128),
            next,
        ),
{
    if b@.len() >= 128 {
        assert(b@.take(128) =~= b@.subrange(0, 128));
    }
}

/// A reader that waits for the length of the disk waits for nothing else, but for the news that
/// there is none to be had. One that has a result waits for nothing. Any other one waits for
/// bytes.
pub proof fn law_awaits(m: ReaderModel, a: Answer)
    ensures
        m.stage is Length ==> (reader::awaits(m, a) <==> a is Length || a is Unreachable),
        m.stage is Finished ==> !reader::awaits(m, a),
        m.stage !is Length && m.stage !is Finished ==> (reader::awaits(m, a) <==> a is Bytes || a
            is Failed || a is Unreachable),
{
}

} // verus!
