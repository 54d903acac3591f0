//! What is on a disk after a table was written to it, and what is read from there.

use vstd::prelude::*;
use crate::bytes;
use crate::disk;
use crate::disk::WriteModel;
use crate::error::ErrorModel;
use crate::header;
use crate::header::HeaderModel;
use crate::layout;
use crate::partition;
use crate::partition::EntryModel;
use crate::reader;
use crate::table;
use crate::table::TableModel;
use crate::writer;

verus! {

/// Whether two writes have no byte in common.
pub open spec fn are_disjoint(a: WriteModel, b: WriteModel) -> bool {
    a.offset + a.bytes.len() <= b.offset || b.offset + b.bytes.len() <= a.offset
}

/// Whether the bytes of a write are on a disk.
pub open spec fn holds(disk: Seq<u8>, w: WriteModel) -> bool {
    &&& w.offset + w.bytes.len() <= disk.len()
    &&& disk.subrange(w.offset as int, (w.offset + w.bytes.len()) as int) == w.bytes
}

/// Whether a write changes the byte at a position.
pub open spec fn covers(w: WriteModel, x: int) -> bool {
    w.offset <= x < w.offset + w.bytes.len()
}

proof fn lemma_overwrite(d: Seq<u8>, w: WriteModel, v: WriteModel)
    requires
        w.bytes.len() > 0,
    ensures
        holds(disk::overwrite(d, w), w),
        holds(d, v) && are_disjoint(v, w) ==> holds(disk::overwrite(d, w), v),
{
    let r = disk::overwrite(d, w);
    assert(r.subrange(w.offset as int, (w.offset + w.bytes.len()) as int) =~= w.bytes);
    if holds(d, v) && are_disjoint(v, w) {
        let s = d.subrange(v.offset as int, (v.offset + v.bytes.len()) as int);
        assert forall|i: int| 0 <= i < v.bytes.len() implies r[v.offset + i] == v.bytes[i] by {
            assert(s[i] == v.bytes[i]);
        }
        assert(r.subrange(v.offset as int, (v.offset + v.bytes.len()) as int) =~= v.bytes);
    }
}

/// Writes that have no byte in common are all on the disk in the end.
proof fn lemma_apply_disjoint(d: Seq<u8>, writes: Seq<WriteModel>, i: int)
    requires
        forall|k: int| 0 <= k < writes.len() ==> (#[trigger] writes[k]).bytes.len() > 0,
        forall|k: int, m: int|
            0 <= k < m < writes.len() ==> are_disjoint(#[trigger] writes[k], #[trigger] writes[m]),
        0 <= i < writes.len(),
    ensures
        holds(disk::apply_writes(d, writes), writes[i]),
    decreases writes.len(),
{
    let front = writes.drop_last();
    let last = writes.last();
    let before = disk::apply_writes(d, front);
    assert(writes[writes.len() - 1] == last && last.bytes.len() > 0);
    lemma_overwrite(before, last, writes[i]);
    if i < front.len() {
        assert forall|k: int, m: int| 0 <= k < m < front.len() implies are_disjoint(
            #[trigger] front[k],
            #[trigger] front[m],
        ) by {
            assert(are_disjoint(writes[k], writes[m]));
        }
        assert forall|k: int| 0 <= k < front.len() implies (#[trigger] front[k]).bytes.len()
            > 0 by {
            assert(writes[k].bytes.len() > 0);
        }
        lemma_apply_disjoint(d, front, i);
        assert(are_disjoint(writes[i], writes[writes.len() - 1]));
    }
}

/// Writes within a disk do not make it longer, and leave alone what none of them covers.
proof fn lemma_apply_within(d: Seq<u8>, writes: Seq<WriteModel>)
    requires
        forall|k: int|
            0 <= k < writes.len() ==> (#[trigger] writes[k]).offset + writes[k].bytes.len()
                <= d.len(),
    ensures
        disk::apply_writes(d, writes).len() == d.len(),
        forall|x: int|
            0 <= x < d.len() && (forall|k: int|
                0 <= k < writes.len() ==> !#[trigger] covers(writes[k], x))
                ==> #[trigger] disk::apply_writes(d, writes)[x] == d[x],
    decreases writes.len(),
{
    if writes.len() > 0 {
        let front = writes.drop_last();
        let before = disk::apply_writes(d, front);
        let r = disk::apply_writes(d, writes);
        assert forall|k: int| 0 <= k < front.len() implies (#[trigger] front[k]).offset
            + front[k].bytes.len() <= d.len() by {
            assert(writes[k].offset + writes[k].bytes.len() <= d.len());
        }
        lemma_apply_within(d, front);
        assert(writes[writes.len() - 1].offset + writes.last().bytes.len() <= d.len());
        assert forall|x: int|
            0 <= x < d.len() && (forall|k: int|
                0 <= k < writes.len() ==> !#[trigger] covers(writes[k], x)) implies #[trigger] r[x]
            == d[x] by {
            assert(!covers(writes[writes.len() - 1], x));
            assert forall|k: int| 0 <= k < front.len() implies !#[trigger] covers(front[k], x) by {
                assert(!covers(writes[k], x));
            }
            assert(before[x] == d[x]);
        }
    }
}

/// Whether the parts of a table have the sizes that they have on disk, and it has as many entries
/// as its header says.
pub open spec fn has_shape(t: TableModel) -> bool {
    &&& header::has_arrays(t.header)
    &&& t.header.size_of_partition_entry == partition::ENTRY_SIZE
    &&& t.partitions.len() == t.header.number_of_partition_entries
    &&& forall|i: int|
        0 <= i < t.partitions.len() ==> partition::has_guids(#[trigger] t.partitions[i])
}

/// Whether a table has the form that tables have on disk: its signature, revision and sizes are
/// those that there are, it has as many entries as its header says, and no two of them have the
/// same GUID.
pub open spec fn is_regular(t: TableModel) -> bool {
    &&& has_shape(t)
    &&& t.header.signature == header::gpt_signature()
    &&& t.header.revision == header::gpt_revision()
    &&& t.header.header_size == header::HEADER_SIZE
    &&& table::distinct_guids(t.partitions)
}

/// Whether a disk of `len` bytes has room for both copies of a table, and its sectors for a
/// header.
pub open spec fn has_room(t: TableModel, len: u64) -> bool {
    &&& t.sector_size >= header::HEADER_SIZE
    &&& 2 * header::array_sectors(t.header, t.sector_size) + 3 <= len / t.sector_size
}

/// The header that is in the second sector after a table was written.
pub open spec fn first_header(t: TableModel, len: u64) -> HeaderModel {
    let h = writer::placed_header(t, len);
    if t.header.primary_lba == 1 {
        h
    } else {
        writer::mirrored_header(h)
    }
}

/// The header that is in the last sector after a table was written.
pub open spec fn last_header(t: TableModel, len: u64) -> HeaderModel {
    writer::mirrored_header(first_header(t, len))
}

/// Whether a position is in the last sector of a disk to which a table was written, or where the
/// entries of the header in that sector are.
pub open spec fn is_in_last_copy(t: TableModel, len: u64, x: int) -> bool {
    let ss = t.sector_size;
    let l = last_header(t, len);
    ||| (len / ss - 1) * ss <= x < (len / ss) * ss
    ||| l.partition_entry_lba * ss <= x < (l.partition_entry_lba + header::array_sectors(l, ss))
        * ss
}

/// The entries that are read back where some entries were written.
pub open spec fn stored_entries(entries: Seq<EntryModel>) -> Seq<EntryModel> {
    entries.map_values(|e: EntryModel| partition::stored_entry(e))
}

/// The table that is read back where a table was written, with one of its two headers.
pub open spec fn stored_table(t: TableModel, h: HeaderModel) -> TableModel {
    TableModel {
        sector_size: t.sector_size,
        header: header::sealed_header(h, t.partitions),
        partitions: stored_entries(t.partitions),
        align: table::alignment(h.first_usable_lba, t.partitions),
    }
}

/// A disk after a table was written to it.
pub open spec fn written_disk(t: TableModel, d: Seq<u8>) -> Seq<u8> {
    disk::apply_writes(d, writer::table_writes(t, d.len() as u64))
}

/// The first sector of the zone that the writes of a copy are in: that of its header or that of
/// its entries.
spec fn zone_start(h: HeaderModel, i: int) -> int {
    if i == 0 {
        h.primary_lba as int
    } else {
        h.partition_entry_lba as int
    }
}

/// The sector after that zone.
spec fn zone_end(h: HeaderModel, sector_size: u64, i: int) -> int {
    if i == 0 {
        h.primary_lba + 1
    } else {
        h.partition_entry_lba + header::array_sectors(h, sector_size)
    }
}

/// A write of a copy stays in its zone.
proof fn lemma_copy_zone(h: HeaderModel, sector_size: u64, entries: Seq<EntryModel>, i: int)
    requires
        header::has_arrays(h),
        sector_size >= header::HEADER_SIZE,
        h.size_of_partition_entry == partition::ENTRY_SIZE,
        h.number_of_partition_entries == entries.len(),
        forall|k: int| 0 <= k < entries.len() ==> partition::has_guids(#[trigger] entries[k]),
        0 <= i < 1 + entries.len(),
    ensures
        ({
            let w = header::copy_writes(h, sector_size, entries)[i];
            &&& w.bytes.len() > 0
            &&& zone_start(h, i) * sector_size <= w.offset
            &&& w.offset + w.bytes.len() <= zone_end(h, sector_size, i) * sector_size
            &&& i == 0 ==> w.offset == h.primary_lba * sector_size && w.bytes
                == header::encode_header(h)
            &&& i > 0 ==> w.offset == h.partition_entry_lba * sector_size + 128 * (i - 1)
                && w.bytes == partition::encode_entry(entries[i - 1]) && w.bytes.len() == 128
        }),
{
    let ss = sector_size as int;
    if i == 0 {
        let p = h.primary_lba as int;
        header::lemma_encode_header_len(h);
        assert(0 <= p * ss && (p + 1) * ss == p * ss + ss) by (nonlinear_arith)
            requires
                0 <= p,
                0 <= ss,
        ;
    } else {
        let n = h.number_of_partition_entries as int;
        let a = header::array_sectors(h, sector_size);
        let p = h.partition_entry_lba as int;
        header::lemma_array_sectors(h, sector_size);
        header::lemma_entry_offset_bound(h, sector_size, i - 1, i - 1);
        partition::lemma_encode_entry_len(entries[i - 1]);
        assert((p + a) * ss == p * ss + a * ss) by (nonlinear_arith);
        assert((i - 1) * 128 + 128 <= n * 128);
    }
}

/// Two zones, one of which ends before the other starts, have no byte in common.
proof fn lemma_zones_apart(a_end: int, b_start: int, sector_size: u64)
    requires
        a_end <= b_start,
    ensures
        a_end * sector_size <= b_start * sector_size,
{
    assert(a_end * sector_size <= b_start * sector_size) by (nonlinear_arith)
        requires
            a_end <= b_start,
            0 <= sector_size,
    ;
}

/// Where the two headers of a table and their entries are.
pub proof fn lemma_geometry(t: TableModel, len: u64)
    requires
        has_shape(t),
        has_room(t, len),
        header::can_update(t.header, len, t.sector_size),
    ensures
        ({
            let sectors = (len / t.sector_size) as int;
            let array = header::array_sectors(t.header, t.sector_size);
            let f = first_header(t, len);
            let l = last_header(t, len);
            let h = writer::placed_header(t, len);
            &&& 1 <= array
            &&& f.primary_lba == 1
            &&& l.primary_lba == sectors - 1
            &&& f.last_usable_lba == sectors - array - 2
            &&& f.partition_entry_lba == 2 && l.partition_entry_lba == f.last_usable_lba + 1
                || l.partition_entry_lba == 2 && f.partition_entry_lba == f.last_usable_lba + 1
            &&& h == f && writer::mirrored_header(h) == l || h == l && writer::mirrored_header(h)
                == f
            &&& sectors * t.sector_size <= len
        }),
{
    let h = writer::placed_header(t, len);
    header::lemma_array_sectors(t.header, t.sector_size);
    vstd::arithmetic::div_mod::lemma_fundamental_div_mod(len as int, t.sector_size as int);
    vstd::arithmetic::div_mod::lemma_mod_bound(len as int, t.sector_size as int);
    let q = len as int / t.sector_size as int;
    assert(q * t.sector_size == t.sector_size * q) by (nonlinear_arith);
    assert(writer::mirrored_header(writer::mirrored_header(h)) =~= h);
}

/// The header that write number `i` of a table belongs to.
spec fn write_header(t: TableModel, len: u64, i: int) -> HeaderModel {
    let h = writer::placed_header(t, len);
    if i <= t.partitions.len() {
        header::sealed_header(h, t.partitions)
    } else {
        header::sealed_header(writer::mirrored_header(h), t.partitions)
    }
}

/// The number of write number `i` of a table among those of its header.
spec fn write_place(t: TableModel, i: int) -> int {
    if i <= t.partitions.len() {
        i
    } else {
        i - t.partitions.len() - 1
    }
}

/// What each of the writes that put a table on a disk is.
proof fn lemma_table_write(t: TableModel, len: u64, i: int)
    requires
        has_shape(t),
        t.sector_size >= header::HEADER_SIZE,
        0 <= i < writer::table_writes(t, len).len(),
    ensures
        ({
            let w = writer::table_writes(t, len)[i];
            let c = write_header(t, len, i);
            let k = write_place(t, i);
            &&& writer::table_writes(t, len).len() == 2 * t.partitions.len() + 2
            &&& 0 <= k <= t.partitions.len()
            &&& w == header::copy_writes(c, t.sector_size, t.partitions)[k]
            &&& w.bytes.len() > 0
            &&& zone_start(c, k) * t.sector_size <= w.offset
            &&& w.offset + w.bytes.len() <= zone_end(c, t.sector_size, k) * t.sector_size
            &&& k == 0 ==> w.offset == c.primary_lba * t.sector_size && w.bytes
                == header::encode_header(c) && w.bytes.len() == header::HEADER_SIZE
            &&& k > 0 ==> w.offset == c.partition_entry_lba * t.sector_size + 128 * (k - 1)
                && w.bytes == partition::encode_entry(t.partitions[k - 1]) && w.bytes.len() == 128
        }),
{
    let c = write_header(t, len, i);
    header::lemma_encode_header_len(c);
    lemma_copy_zone(c, t.sector_size, t.partitions, write_place(t, i));
}

/// The writes that put a table on a disk have no byte in common, and stay on the disk.
proof fn lemma_table_writes(t: TableModel, len: u64)
    requires
        has_shape(t),
        has_room(t, len),
        writer::can_write_table(t, len),
    ensures
        writer::table_writes(t, len).len() == 2 * t.partitions.len() + 2,
        forall|i: int|
            0 <= i < writer::table_writes(t, len).len() ==> (#[trigger] writer::table_writes(
                t,
                len,
            )[i]).bytes.len() > 0 && writer::table_writes(t, len)[i].offset
                + writer::table_writes(t, len)[i].bytes.len() <= len,
        forall|i: int, j: int|
            0 <= i < j < writer::table_writes(t, len).len() ==> are_disjoint(
                #[trigger] writer::table_writes(t, len)[i],
                #[trigger] writer::table_writes(t, len)[j],
            ),
{
    let ss = t.sector_size;
    let all = writer::table_writes(t, len);
    let sectors = (len / ss) as int;
    lemma_geometry(t, len);
    assert forall|i: int| 0 <= i < all.len() implies (#[trigger] all[i]).bytes.len() > 0
        && all[i].offset + all[i].bytes.len() <= len by {
        lemma_table_write(t, len, i);
        lemma_zones_apart(zone_end(write_header(t, len, i), ss, write_place(t, i)), sectors, ss);
    }
    assert forall|i: int, j: int| 0 <= i < j < all.len() implies are_disjoint(
        #[trigger] all[i],
        #[trigger] all[j],
    ) by {
        lemma_table_write(t, len, i);
        lemma_table_write(t, len, j);
        let c = write_header(t, len, i);
        let k = write_place(t, i);
        let d = write_header(t, len, j);
        let l = write_place(t, j);
        if zone_end(c, ss, k) <= zone_start(d, l) {
            lemma_zones_apart(zone_end(c, ss, k), zone_start(d, l), ss);
        } else if zone_end(d, ss, l) <= zone_start(c, k) {
            lemma_zones_apart(zone_end(d, ss, l), zone_start(c, k), ss);
        } else {
            assert(c == d && k > 0 && l > 0);
        }
    }
    lemma_table_write(t, len, 0);
}

/// Whether a disk has a header and its entries where they belong.
pub open spec fn holds_copy(
    d: Seq<u8>,
    h: HeaderModel,
    sector_size: u64,
    entries: Seq<EntryModel>,
) -> bool {
    forall|i: int|
        0 <= i < header::copy_writes(h, sector_size, entries).len() ==> holds(
            d,
            #[trigger] header::copy_writes(h, sector_size, entries)[i],
        )
}

/// Whether a position is in a header or in the partition array that belongs to it.
pub open spec fn is_in_copy(h: HeaderModel, sector_size: u64, x: int) -> bool {
    let start = h.primary_lba * sector_size;
    let array = h.partition_entry_lba * sector_size;
    ||| start <= x < start + header::HEADER_SIZE
    ||| array <= x < array + h.number_of_partition_entries * h.size_of_partition_entry
}

/// Both copies of a table are on the disk after it was written, and nothing else has changed:
/// neither the length of the disk, nor any byte outside the two headers and the two partition
/// arrays. So the first sector is as it was, and so are the sectors between the two copies. These
/// are the usable ones, but for a table with its own header in the second sector and the entries
/// of it elsewhere than in the third: there the first usable sector is counted from where these
/// entries were before.
pub proof fn law_write_puts_both_copies(t: TableModel, d: Seq<u8>)
    requires
        d.len() <= u64::MAX,
        has_shape(t),
        has_room(t, d.len() as u64),
        writer::can_write_table(t, d.len() as u64),
    ensures
        ({
            let len = d.len() as u64;
            let ss = t.sector_size;
            let f = first_header(t, len);
            let l = last_header(t, len);
            let array = header::array_sectors(t.header, ss);
            let r = written_disk(t, d);
            &&& r.len() == d.len()
            &&& holds_copy(r, header::sealed_header(f, t.partitions), ss, t.partitions)
            &&& holds_copy(r, header::sealed_header(l, t.partitions), ss, t.partitions)
            &&& f.first_usable_lba == if t.header.primary_lba == 1 {
                t.header.partition_entry_lba + array
            } else {
                2 + array
            }
            &&& f.last_usable_lba + 1 + array == l.primary_lba
            &&& forall|x: int|
                0 <= x < d.len() && !is_in_copy(f, ss, x) && !is_in_copy(l, ss, x)
                    ==> #[trigger] r[x] == d[x]
            &&& forall|x: int| 0 <= x < ss ==> #[trigger] r[x] == d[x]
            &&& forall|x: int|
                (2 + array) * ss <= x < (f.last_usable_lba + 1) * ss ==> #[trigger] r[x] == d[x]
        }),
{
    let len = d.len() as u64;
    let n = t.partitions.len();
    let ss = t.sector_size;
    let all = writer::table_writes(t, len);
    let h = writer::placed_header(t, len);
    let m = writer::mirrored_header(h);
    let f = first_header(t, len);
    let l = last_header(t, len);
    let array = header::array_sectors(t.header, ss);
    let r = written_disk(t, d);
    lemma_geometry(t, len);
    lemma_table_writes(t, len);
    lemma_apply_within(d, all);
    let a = header::copy_writes(header::sealed_header(h, t.partitions), ss, t.partitions);
    let b = header::copy_writes(header::sealed_header(m, t.partitions), ss, t.partitions);
    assert(a.len() == n + 1 && b.len() == n + 1);
    assert forall|i: int| 0 <= i < a.len() implies holds(r, #[trigger] a[i]) by {
        lemma_apply_disjoint(d, all, i);
        assert(all[i] == a[i]);
    }
    assert forall|i: int| 0 <= i < b.len() implies holds(r, #[trigger] b[i]) by {
        lemma_apply_disjoint(d, all, i + n + 1);
        assert(all[i + n + 1] == b[i]);
    }
    assert forall|x: int|
        0 <= x < d.len() && !is_in_copy(f, ss, x) && !is_in_copy(l, ss, x) implies #[trigger] r[x]
        == d[x] by {
        assert forall|k: int| 0 <= k < all.len() implies !#[trigger] covers(all[k], x) by {
            lemma_table_write(t, len, k);
            let c = if k <= n {
                h
            } else {
                m
            };
            assert(c == f || c == l);
            assert(!is_in_copy(c, ss, x));
            assert(c.number_of_partition_entries * c.size_of_partition_entry == n * 128);
        }
    }
    assert forall|x: int|
        0 <= x < ss || (2 + array) * ss <= x < (f.last_usable_lba + 1) * ss implies #[trigger] r[x]
        == d[x] by {
        lemma_outside_copies(t, len, x);
    }
}

/// The first sector and the sectors between the two copies are outside the headers and the
/// partition arrays.
proof fn lemma_outside_copies(t: TableModel, len: u64, x: int)
    requires
        has_shape(t),
        has_room(t, len),
        writer::can_write_table(t, len),
        0 <= x < t.sector_size || (2 + header::array_sectors(t.header, t.sector_size))
            * t.sector_size <= x < (first_header(t, len).last_usable_lba + 1) * t.sector_size,
    ensures
        0 <= x < len,
        !is_in_copy(first_header(t, len), t.sector_size, x),
        !is_in_copy(last_header(t, len), t.sector_size, x),
{
    let ss = t.sector_size;
    let f = first_header(t, len);
    let array = header::array_sectors(t.header, ss);
    let sectors = (len / ss) as int;
    let high = f.last_usable_lba + 1;
    lemma_geometry(t, len);
    header::lemma_array_sectors(t.header, ss);
    lemma_zones_apart(0, 2 + array, ss);
    lemma_zones_apart(1, 2, ss);
    lemma_zones_apart(2, 2 + array, ss);
    lemma_zones_apart(2 + array, high, ss);
    lemma_zones_apart(high, sectors - 1, ss);
    lemma_zones_apart(1, sectors, ss);
    lemma_zones_apart(high, sectors, ss);
    assert((2 + array) * ss == 2 * ss + array * ss) by (nonlinear_arith);
    assert(1 * ss == ss && 2 * ss == ss + ss);
}

proof fn lemma_stored_entries(entries: Seq<EntryModel>)
    ensures
        table::used_lbas(stored_entries(entries)) == table::used_lbas(entries),
    decreases entries.len(),
{
    let stored = stored_entries(entries);
    if entries.len() > 0 {
        lemma_stored_entries(entries.drop_last());
        assert(stored.drop_last() =~= stored_entries(entries.drop_last()));
        assert(stored.last() == partition::stored_entry(entries.last()));
    }
}

/// Reading the entries of a copy that is on the disk gives what they and their bytes make up.
proof fn lemma_read_rest(
    d: Seq<u8>,
    h: HeaderModel,
    sector_size: u64,
    entries: Seq<EntryModel>,
    i: int,
)
    requires
        holds_copy(d, h, sector_size, entries),
        header::can_write(h, sector_size, entries),
        h.number_of_partition_entries == entries.len(),
        forall|k: int| 0 <= k < entries.len() ==> partition::has_guids(#[trigger] entries[k]),
        0 <= i <= entries.len(),
    ensures
        reader::rest_outcome(
            d,
            h,
            sector_size,
            stored_entries(entries).take(i),
            header::entries_bytes(entries.take(i)),
        ) == reader::told(
            reader::assembled(
                h,
                sector_size,
                stored_entries(entries),
                header::entries_bytes(entries),
            ),
        ),
    decreases entries.len() - i,
{
    let stored = stored_entries(entries);
    if i == entries.len() {
        assert(stored.take(i) =~= stored);
        assert(entries.take(i) =~= entries);
    } else {
        let w = header::copy_writes(h, sector_size, entries)[i + 1];
        let offset = header::entry_offset(h, sector_size, i);
        header::lemma_entry_offset_bound(h, sector_size, i, entries.len() - 1);
        assert(holds(d, w));
        partition::law_entry_round_trip(entries[i]);
        let tail = bytes::tail_at(d, offset);
        assert(w.offset == offset && w.bytes == partition::encode_entry(entries[i]));
        assert(tail.take(128) =~= d.subrange(offset, offset + 128));
        lemma_decode_entry_of_tail(tail, entries[i]);
        assert(reader::window(d, offset, 128) == partition::encode_entry(entries[i]));
        assert(entries.take(i + 1).drop_last() =~= entries.take(i));
        assert(stored.take(i).push(stored[i]) =~= stored.take(i + 1));
        lemma_read_rest(d, h, sector_size, entries, i + 1);
    }
}

proof fn lemma_decode_entry_of_tail(tail: Seq<u8>, e: EntryModel)
    requires
        partition::has_guids(e),
        tail.len() >= 128,
        tail.take(128) == partition::encode_entry(e),
    ensures
        reader::parse_entry(tail) == Ok::<EntryModel, ErrorModel>(partition::stored_entry(e)),
{
    reader::lemma_window_entry(tail, 0);
    assert(bytes::tail_at(tail, 0) =~= tail);
    partition::law_entry_round_trip(e);
}

/// A copy that is on the disk, with the header at the given position, is accepted there.
proof fn lemma_read_header(
    d: Seq<u8>,
    h: HeaderModel,
    sector_size: u64,
    entries: Seq<EntryModel>,
    offset: int,
)
    requires
        header::has_arrays(h),
        h.signature == header::gpt_signature(),
        h.revision == header::gpt_revision(),
        h.header_size == header::HEADER_SIZE,
        holds_copy(d, header::sealed_header(h, entries), sector_size, entries),
        offset == h.primary_lba * sector_size,
    ensures
        header::parse_header(bytes::tail_at(d, offset)) == Ok::<HeaderModel, ErrorModel>(
            header::sealed_header(h, entries),
        ),
{
    let w = header::copy_writes(header::sealed_header(h, entries), sector_size, entries)[0];
    assert(holds(d, w));
    lemma_held_header(d, h, sector_size, entries, offset);
}

/// A header that is on the disk, at the given position, is accepted there.
proof fn lemma_held_header(
    d: Seq<u8>,
    h: HeaderModel,
    sector_size: u64,
    entries: Seq<EntryModel>,
    offset: int,
)
    requires
        header::has_arrays(h),
        h.signature == header::gpt_signature(),
        h.revision == header::gpt_revision(),
        h.header_size == header::HEADER_SIZE,
        holds(
            d,
            header::copy_writes(header::sealed_header(h, entries), sector_size, entries)[0],
        ),
        offset == h.primary_lba * sector_size,
    ensures
        header::parse_header(bytes::tail_at(d, offset)) == Ok::<HeaderModel, ErrorModel>(
            header::sealed_header(h, entries),
        ),
{
    let sealed = header::sealed_header(h, entries);
    let w = header::copy_writes(sealed, sector_size, entries)[0];
    assert(holds(d, w));
    header::law_header_round_trip(sealed);
    header::law_sealed_header_is_accepted(h, entries);
    reader::lemma_window_header(d, offset);
    assert(0 <= h.primary_lba * sector_size) by (nonlinear_arith)
        requires
            0 <= h.primary_lba,
            0 <= sector_size,
    ;
    assert(reader::window(d, offset, header::HEADER_SIZE as int) =~= w.bytes);
}

/// A copy that is on the disk is read from its header on as the table that was written.
proof fn lemma_read_copy(d: Seq<u8>, t: TableModel, h: HeaderModel)
    requires
        has_shape(t),
        header::can_write(h, t.sector_size, t.partitions),
        h.number_of_partition_entries == t.header.number_of_partition_entries,
        table::has_alignment(h.first_usable_lba, t.partitions),
        holds_copy(d, header::sealed_header(h, t.partitions), t.sector_size, t.partitions),
    ensures
        reader::rest_outcome(
            d,
            header::sealed_header(h, t.partitions),
            t.sector_size,
            Seq::empty(),
            Seq::empty(),
        ) == Some(Ok::<TableModel, ErrorModel>(stored_table(t, h))),
{
    let sealed = header::sealed_header(h, t.partitions);
    let stored = stored_entries(t.partitions);
    lemma_stored_entries(t.partitions);
    lemma_read_rest(d, sealed, t.sector_size, t.partitions, 0);
    assert(stored.take(0) =~= Seq::empty());
    assert(t.partitions.take(0).len() == 0);
    assert(header::entries_bytes(t.partitions.take(0)) =~= Seq::empty());
}

/// Where the two headers say that they are.
proof fn lemma_header_places(t: TableModel, len: u64)
    requires
        is_regular(t),
        has_room(t, len),
        header::can_update(t.header, len, t.sector_size),
    ensures
        first_header(t, len).primary_lba == 1,
        first_header(t, len).backup_lba == len / t.sector_size - 1,
        last_header(t, len).primary_lba == len / t.sector_size - 1,
        last_header(t, len).backup_lba == 1,
        (t.header.primary_lba == 1) == (t.header.partition_entry_lba == 2) ==> {
            &&& first_header(t, len).partition_entry_lba == 2
            &&& last_header(t, len).partition_entry_lba == last_header(t, len).last_usable_lba + 1
        },
{
    header::lemma_array_sectors(t.header, t.sector_size);
}

/// The first copy of a table, where it is on the disk, is read.
proof fn lemma_primary_is_read(r: Seq<u8>, t: TableModel, len: u64)
    requires
        is_regular(t),
        has_room(t, len),
        writer::can_write_table(t, len),
        table::has_alignment(first_header(t, len).first_usable_lba, t.partitions),
        holds_copy(
            r,
            header::sealed_header(first_header(t, len), t.partitions),
            t.sector_size,
            t.partitions,
        ),
    ensures
        reader::read_outcome(r, t.sector_size) == Some(
            Ok::<TableModel, ErrorModel>(stored_table(t, first_header(t, len))),
        ),
{
    let f = first_header(t, len);
    lemma_header_places(t, len);
    lemma_read_header(r, f, t.sector_size, t.partitions, t.sector_size as int);
    lemma_geometry(t, len);
    lemma_read_copy(r, t, f);
}

/// What reading a disk gives to which a table was just written: that table, with the header that
/// is in the second sector. A name of at most 36 code units without a character zero is read back
/// as it was.
pub proof fn law_read_after_write(t: TableModel, d: Seq<u8>)
    requires
        d.len() <= u64::MAX,
        is_regular(t),
        has_room(t, d.len() as u64),
        writer::can_write_table(t, d.len() as u64),
        table::has_alignment(first_header(t, d.len() as u64).first_usable_lba, t.partitions),
    ensures
        reader::read_outcome(written_disk(t, d), t.sector_size) == Some(
            Ok::<TableModel, ErrorModel>(stored_table(t, first_header(t, d.len() as u64))),
        ),
        first_header(t, d.len() as u64).primary_lba == 1,
        first_header(t, d.len() as u64).backup_lba == d.len() as u64 / t.sector_size - 1,
        (t.header.primary_lba == 1) == (t.header.partition_entry_lba == 2) ==> first_header(
            t,
            d.len() as u64,
        ).partition_entry_lba == 2,
        (forall|i: int|
            0 <= i < t.partitions.len() ==> partition::stored_name(
                (#[trigger] t.partitions[i]).partition_name,
            ) == t.partitions[i].partition_name) ==> stored_table(
            t,
            first_header(t, d.len() as u64),
        ).partitions == t.partitions,
{
    let len = d.len() as u64;
    lemma_header_places(t, len);
    law_write_puts_both_copies(t, d);
    lemma_primary_is_read(written_disk(t, d), t, len);
    if forall|i: int|
        0 <= i < t.partitions.len() ==> partition::stored_name(
            (#[trigger] t.partitions[i]).partition_name,
        ) == t.partitions[i].partition_name {
        assert(stored_entries(t.partitions) =~= t.partitions);
    }
}

/// What reading a disk gives to which a table was written and which was damaged since, so that
/// there is no header in the second sector any more, but not in its last sector nor where the
/// entries of the header in that sector are: that table, with the header that is in the last
/// sector.
pub proof fn law_backup_is_read(t: TableModel, d: Seq<u8>, damaged: Seq<u8>)
    requires
        d.len() <= u64::MAX,
        is_regular(t),
        has_room(t, d.len() as u64),
        writer::can_write_table(t, d.len() as u64),
        table::has_alignment(last_header(t, d.len() as u64).first_usable_lba, t.partitions),
        damaged.len() == d.len(),
        forall|x: int|
            is_in_last_copy(t, d.len() as u64, x) ==> #[trigger] damaged[x] == written_disk(
                t,
                d,
            )[x],
        header::parse_header(bytes::tail_at(damaged, t.sector_size as int)) is Err,
    ensures
        reader::read_outcome(damaged, t.sector_size) == Some(
            Ok::<TableModel, ErrorModel>(stored_table(t, last_header(t, d.len() as u64))),
        ),
        last_header(t, d.len() as u64).primary_lba == d.len() as u64 / t.sector_size - 1,
        last_header(t, d.len() as u64).backup_lba == 1,
        (t.header.primary_lba == 1) == (t.header.partition_entry_lba == 2) ==> last_header(
            t,
            d.len() as u64,
        ).partition_entry_lba == last_header(t, d.len() as u64).last_usable_lba + 1,
{
    let len = d.len() as u64;
    lemma_header_places(t, len);
    law_write_puts_both_copies(t, d);
    lemma_last_copy_survives(t, len, written_disk(t, d), damaged);
    lemma_backup_is_read(damaged, t, len);
}

/// The last copy of a table is on every disk that has the same bytes where it is.
proof fn lemma_last_copy_survives(t: TableModel, len: u64, r: Seq<u8>, damaged: Seq<u8>)
    requires
        has_shape(t),
        has_room(t, len),
        writer::can_write_table(t, len),
        r.len() == len,
        damaged.len() == len,
        holds_copy(
            r,
            header::sealed_header(last_header(t, len), t.partitions),
            t.sector_size,
            t.partitions,
        ),
        forall|x: int| is_in_last_copy(t, len, x) ==> #[trigger] damaged[x] == r[x],
    ensures
        holds_copy(
            damaged,
            header::sealed_header(last_header(t, len), t.partitions),
            t.sector_size,
            t.partitions,
        ),
{
    let ss = t.sector_size;
    let sealed = header::sealed_header(last_header(t, len), t.partitions);
    let writes = header::copy_writes(sealed, ss, t.partitions);
    lemma_geometry(t, len);
    assert forall|i: int| 0 <= i < writes.len() implies holds(damaged, #[trigger] writes[i]) by {
        let w = writes[i];
        assert(holds(r, w));
        lemma_copy_zone(sealed, ss, t.partitions, i);
        assert forall|k: int| 0 <= k < w.bytes.len() implies damaged[w.offset + k]
            == w.bytes[k] by {
            assert(r.subrange(w.offset as int, (w.offset + w.bytes.len()) as int)[k] == w.bytes[k]);
            assert(is_in_last_copy(t, len, w.offset + k));
            assert(damaged[w.offset + k] == r[w.offset + k]);
        }
        assert(damaged.subrange(w.offset as int, (w.offset + w.bytes.len()) as int) =~= w.bytes);
    }
}

/// The last copy of a table, where it is on the disk, is read if there is no header in the second
/// sector.
proof fn lemma_backup_is_read(d: Seq<u8>, t: TableModel, len: u64)
    requires
        is_regular(t),
        has_room(t, len),
        writer::can_write_table(t, len),
        table::has_alignment(last_header(t, len).first_usable_lba, t.partitions),
        d.len() == len,
        holds_copy(
            d,
            header::sealed_header(last_header(t, len), t.partitions),
            t.sector_size,
            t.partitions,
        ),
        header::parse_header(bytes::tail_at(d, t.sector_size as int)) is Err,
    ensures
        reader::read_outcome(d, t.sector_size) == Some(
            Ok::<TableModel, ErrorModel>(stored_table(t, last_header(t, len))),
        ),
{
    let ss = t.sector_size;
    let l = last_header(t, len);
    let sectors = (len / ss) as int;
    lemma_geometry(t, len);
    assert(sectors * ss <= len);
    lemma_zones_apart(1, sectors, ss);
    assert(1 * ss <= len);
    assert(reader::has_backup_sector(d.len() as int, ss));
    lemma_read_header(d, l, ss, t.partitions, reader::backup_offset(d.len() as int, ss));
    lemma_read_copy(d, t, l);
}

proof fn lemma_apply_concat(d: Seq<u8>, a: Seq<WriteModel>, b: Seq<WriteModel>)
    ensures
        disk::apply_writes(d, a + b) == disk::apply_writes(disk::apply_writes(d, a), b),
    decreases b.len(),
{
    if b.len() == 0 {
        assert(a + b =~= a);
    } else {
        lemma_apply_concat(d, a, b.drop_last());
        assert((a + b).drop_last() =~= a + b.drop_last());
    }
}

/// A first write that has no byte in common with the later ones is on the disk in the end.
proof fn lemma_first_write_stays(d: Seq<u8>, writes: Seq<WriteModel>)
    requires
        writes.len() > 0,
        forall|k: int| 0 <= k < writes.len() ==> (#[trigger] writes[k]).bytes.len() > 0,
        forall|k: int| 0 < k < writes.len() ==> are_disjoint(writes[0], #[trigger] writes[k]),
    ensures
        holds(disk::apply_writes(d, writes), writes[0]),
    decreases writes.len(),
{
    let front = writes.drop_last();
    let last = writes.last();
    assert(writes[writes.len() - 1] == last && last.bytes.len() > 0);
    lemma_overwrite(disk::apply_writes(d, front), last, writes[0]);
    if front.len() > 0 {
        assert forall|k: int| 0 <= k < front.len() implies (#[trigger] front[k]).bytes.len()
            > 0 by {
            assert(writes[k].bytes.len() > 0);
        }
        assert forall|k: int| 0 < k < front.len() implies are_disjoint(
            front[0],
            #[trigger] front[k],
        ) by {
            assert(are_disjoint(writes[0], writes[k]));
        }
        lemma_first_write_stays(d, front);
        assert(are_disjoint(writes[0], writes[writes.len() - 1]));
    }
}

/// The writes of a header in the second sector, with its entries in the third, have no byte in
/// common.
proof fn lemma_primary_writes(c: HeaderModel, sector_size: u64, entries: Seq<EntryModel>)
    requires
        header::has_arrays(c),
        sector_size >= header::HEADER_SIZE,
        c.size_of_partition_entry == partition::ENTRY_SIZE,
        c.number_of_partition_entries == entries.len(),
        forall|k: int| 0 <= k < entries.len() ==> partition::has_guids(#[trigger] entries[k]),
        c.primary_lba == 1,
        c.partition_entry_lba == 2,
    ensures
        header::copy_writes(c, sector_size, entries).len() == entries.len() + 1,
        forall|k: int|
            0 <= k < entries.len() + 1 ==> (#[trigger] header::copy_writes(
                c,
                sector_size,
                entries,
            )[k]).bytes.len() > 0,
        forall|k: int, m: int|
            0 <= k < m < entries.len() + 1 ==> are_disjoint(
                #[trigger] header::copy_writes(c, sector_size, entries)[k],
                #[trigger] header::copy_writes(c, sector_size, entries)[m],
            ),
{
    let b = header::copy_writes(c, sector_size, entries);
    assert forall|k: int| 0 <= k < entries.len() + 1 implies (#[trigger] b[k]).bytes.len()
        > 0 by {
        lemma_copy_zone(c, sector_size, entries, k);
    }
    assert forall|k: int, m: int| 0 <= k < m < entries.len() + 1 implies are_disjoint(
        #[trigger] b[k],
        #[trigger] b[m],
    ) by {
        lemma_copy_zone(c, sector_size, entries, k);
        lemma_copy_zone(c, sector_size, entries, m);
    }
}

/// Whether the header of a table is the one at the end of the disk, with its entries elsewhere
/// than in the third sector, unless a disk of `len` bytes is so small that this is the sector after
/// the last usable one.
pub open spec fn is_from_end(t: TableModel, len: u64) -> bool {
    &&& t.header.primary_lba != 1
    &&& t.header.partition_entry_lba != 2 || header::array_sectors(t.header, t.sector_size) + 3
        == len / t.sector_size
}

/// Where a table has the header at the end of a disk, the copy at the start is written last, and is
/// on the disk even if the two copies overlap.
proof fn lemma_repaired_copy(t: TableModel, d: Seq<u8>)
    requires
        d.len() <= u64::MAX,
        has_shape(t),
        t.sector_size >= header::HEADER_SIZE,
        writer::can_write_table(t, d.len() as u64),
        is_from_end(t, d.len() as u64),
    ensures
        first_header(t, d.len() as u64).primary_lba == 1,
        first_header(t, d.len() as u64).partition_entry_lba == 2,
        holds_copy(
            written_disk(t, d),
            header::sealed_header(first_header(t, d.len() as u64), t.partitions),
            t.sector_size,
            t.partitions,
        ),
{
    let len = d.len() as u64;
    let ss = t.sector_size;
    let h = writer::placed_header(t, len);
    header::lemma_array_sectors(t.header, ss);
    let c = header::sealed_header(writer::mirrored_header(h), t.partitions);
    let a = header::copy_writes(header::sealed_header(h, t.partitions), ss, t.partitions);
    let b = header::copy_writes(c, ss, t.partitions);
    lemma_apply_concat(d, a, b);
    lemma_primary_writes(c, ss, t.partitions);
    assert forall|i: int| 0 <= i < b.len() implies holds(
        written_disk(t, d),
        #[trigger] b[i],
    ) by {
        lemma_apply_disjoint(disk::apply_writes(d, a), b, i);
    }
}

/// The header at the end of a disk is there after it was written, unless the partition array at
/// the start reaches into the last sector.
proof fn lemma_end_header_stays(t: TableModel, d: Seq<u8>)
    requires
        d.len() <= u64::MAX,
        has_shape(t),
        t.sector_size >= header::HEADER_SIZE,
        writer::can_write_table(t, d.len() as u64),
        is_from_end(t, d.len() as u64),
        header::array_sectors(t.header, t.sector_size) + 3 <= d.len() as u64 / t.sector_size,
    ensures
        holds(
            written_disk(t, d),
            header::copy_writes(
                header::sealed_header(
                    writer::placed_header(t, d.len() as u64),
                    t.partitions,
                ),
                t.sector_size,
                t.partitions,
            )[0],
        ),
{
    let len = d.len() as u64;
    let ss = t.sector_size;
    let n = t.partitions.len();
    let all = writer::table_writes(t, len);
    let sectors = (len / ss) as int;
    header::lemma_array_sectors(t.header, ss);
    assert(all.len() == 2 * n + 2);
    lemma_table_write(t, len, 0);
    assert forall|k: int| 0 <= k < all.len() implies (#[trigger] all[k]).bytes.len() > 0 by {
        lemma_table_write(t, len, k);
    }
    assert forall|k: int| 0 < k < all.len() implies are_disjoint(all[0], #[trigger] all[k]) by {
        lemma_table_write(t, len, k);
        let c = write_header(t, len, k);
        let z = zone_end(c, ss, write_place(t, k));
        lemma_zones_apart(z, sectors - 1, ss);
    }
    lemma_first_write_stays(d, all);
}

/// Writing a table that was read from its backup header repairs the primary one: what is read then
/// has its header in the second sector, its entries in the third, and they are those of the table.
/// The header at the end of the disk stays there, and has its entries after the last usable
/// sector. That holds also where the two copies overlap, but for the header at the end, which is
/// lost where the partition array at the start reaches into the last sector.
pub proof fn law_write_repairs_primary(d: Seq<u8>, sector_size: u64, g: TableModel)
    requires
        d.len() <= u64::MAX,
        sector_size >= header::HEADER_SIZE,
        reader::read_outcome(d, sector_size) == Some(Ok::<TableModel, ErrorModel>(g)),
        is_from_end(g, d.len() as u64),
        table::distinct_guids(g.partitions),
        writer::can_write_table(g, d.len() as u64),
        table::has_alignment(first_header(g, d.len() as u64).first_usable_lba, g.partitions),
    ensures
        ({
            let len = d.len() as u64;
            let sectors = len / sector_size;
            let array = header::array_sectors(g.header, sector_size);
            let r = written_disk(g, d);
            let u = stored_table(g, first_header(g, len));
            let end = writer::written_table(g, len).header;
            &&& reader::read_outcome(r, sector_size) == Some(Ok::<TableModel, ErrorModel>(u))
            &&& u.header.primary_lba == 1
            &&& u.header.backup_lba == sectors - 1
            &&& u.header.partition_entry_lba == 2
            &&& u.header.first_usable_lba == 2 + array
            &&& u.header.last_usable_lba == sectors - array - 2
            &&& u.partitions == g.partitions
            &&& end.primary_lba == sectors - 1
            &&& end.backup_lba == 1
            &&& end.partition_entry_lba == end.last_usable_lba + 1
            &&& array + 3 <= sectors ==> header::parse_header(
                bytes::tail_at(r, (sectors - 1) * sector_size),
            ) == Ok::<HeaderModel, ErrorModel>(end)
        }),
{
    let len = d.len() as u64;
    let r = written_disk(g, d);
    assert(is_regular(g) && stored_entries(g.partitions) =~= g.partitions) by {
        reader::law_read_table_is_readable(d, sector_size, g);
        header::lemma_entries_have_their_size(g.header);
    }
    assert(g.sector_size == sector_size) by {
        reader::law_read_table_is_readable(d, sector_size, g);
    }
    lemma_repair_places(g, len);
    lemma_repaired_is_read(g, d);
    if header::array_sectors(g.header, sector_size) + 3 <= len / sector_size {
        lemma_end_header_is_accepted(g, d);
    }
}

/// Where the two headers are after a table was written whose header is at the end of the disk.
proof fn lemma_repair_places(t: TableModel, len: u64)
    requires
        header::can_update(t.header, len, t.sector_size),
        is_from_end(t, len),
    ensures
        ({
            let sectors = len / t.sector_size;
            let array = header::array_sectors(t.header, t.sector_size);
            let f = first_header(t, len);
            let h = writer::placed_header(t, len);
            &&& f.primary_lba == 1
            &&& f.backup_lba == sectors - 1
            &&& f.partition_entry_lba == 2
            &&& f.first_usable_lba == 2 + array
            &&& f.last_usable_lba == sectors - array - 2
            &&& h.primary_lba == sectors - 1
            &&& h.backup_lba == 1
            &&& h.partition_entry_lba == h.last_usable_lba + 1
        }),
{
    header::lemma_array_sectors(t.header, t.sector_size);
}

proof fn lemma_repaired_is_read(t: TableModel, d: Seq<u8>)
    requires
        d.len() <= u64::MAX,
        is_regular(t),
        t.sector_size >= header::HEADER_SIZE,
        writer::can_write_table(t, d.len() as u64),
        is_from_end(t, d.len() as u64),
        table::has_alignment(first_header(t, d.len() as u64).first_usable_lba, t.partitions),
    ensures
        reader::read_outcome(written_disk(t, d), t.sector_size) == Some(
            Ok::<TableModel, ErrorModel>(stored_table(t, first_header(t, d.len() as u64))),
        ),
{
    let r = written_disk(t, d);
    let f = first_header(t, d.len() as u64);
    lemma_repair_places(t, d.len() as u64);
    lemma_repaired_copy(t, d);
    lemma_read_header(r, f, t.sector_size, t.partitions, t.sector_size as int);
    lemma_read_copy(r, t, f);
}

proof fn lemma_end_header_is_accepted(t: TableModel, d: Seq<u8>)
    requires
        d.len() <= u64::MAX,
        is_regular(t),
        t.sector_size >= header::HEADER_SIZE,
        writer::can_write_table(t, d.len() as u64),
        is_from_end(t, d.len() as u64),
        header::array_sectors(t.header, t.sector_size) + 3 <= d.len() as u64 / t.sector_size,
    ensures
        header::parse_header(
            bytes::tail_at(
                written_disk(t, d),
                (d.len() as u64 / t.sector_size - 1) * t.sector_size,
            ),
        ) == Ok::<HeaderModel, ErrorModel>(writer::written_table(t, d.len() as u64).header),
{
    let h = writer::placed_header(t, d.len() as u64);
    lemma_repair_places(t, d.len() as u64);
    lemma_end_header_stays(t, d);
    lemma_held_header(
        written_disk(t, d),
        h,
        t.sector_size,
        t.partitions,
        h.primary_lba * t.sector_size,
    );
}

/// A table in the form that tables have can be written wherever there is room for both copies.
pub proof fn law_room_suffices(t: TableModel, len: u64)
    requires
        is_regular(t),
        has_room(t, len),
        header::can_update(t.header, len, t.sector_size),
        partition::ENTRY_SIZE * t.partitions.len() <= u32::MAX,
    ensures
        writer::can_write_table(t, len),
        len <= usize::MAX ==> writer::fits_in_memory(t, len),
{
    let h = writer::placed_header(t, len);
    let m = writer::mirrored_header(h);
    lemma_geometry(t, len);
    lemma_copy_has_room(t, len, h);
    lemma_copy_has_room(t, len, m);
}

proof fn lemma_copy_has_room(t: TableModel, len: u64, c: HeaderModel)
    requires
        is_regular(t),
        has_room(t, len),
        header::can_update(t.header, len, t.sector_size),
        partition::ENTRY_SIZE * t.partitions.len() <= u32::MAX,
        c == first_header(t, len) || c == last_header(t, len),
    ensures
        header::can_write(c, t.sector_size, t.partitions),
        len <= usize::MAX ==> disk::writes_fit(
            header::copy_writes(c, t.sector_size, t.partitions),
        ),
{
    let ss = t.sector_size;
    let n = t.partitions.len() as int;
    let writes = header::copy_writes(c, ss, t.partitions);
    let sectors = (len / ss) as int;
    lemma_geometry(t, len);
    assert forall|i: int| 0 <= i < writes.len() implies (#[trigger] writes[i]).offset
        + writes[i].bytes.len() <= len by {
        lemma_copy_zone(c, ss, t.partitions, i);
        lemma_zones_apart(zone_end(c, ss, i), sectors, ss);
    }
    assert(writes[0].offset + writes[0].bytes.len() <= len);
    assert(writes[n].offset + writes[n].bytes.len() <= len);
    lemma_copy_zone(c, ss, t.partitions, 0);
    lemma_copy_zone(c, ss, t.partitions, n);
    header::lemma_entry_offset_bound(c, ss, n - 1, n - 1);
}

/// A new table for a disk with room for both copies can be written there. All that is between
/// the copies is usable, and free.
pub proof fn law_new_table(len: u64, sector_size: u64, disk_guid: Seq<u8>, t: TableModel)
    requires
        disk_guid.len() == 16,
        header::can_update(header::blank_header(disk_guid), len, sector_size),
        t == (TableModel {
            sector_size,
            header: header::updated_header(header::blank_header(disk_guid), len, sector_size),
            partitions: Seq::new(128, |i: int| partition::empty_entry()),
            align: table::DEFAULT_ALIGN,
        }),
        has_room(t, len),
    ensures
        is_regular(t),
        writer::can_write_table(t, len),
        layout::is_laid_out(t),
        table::has_alignment(t.header.first_usable_lba, t.partitions),
        t.header.first_usable_lba == 2 + header::array_sectors(t.header, sector_size),
        t.header.last_usable_lba + 1 + header::array_sectors(t.header, sector_size)
            == t.header.backup_lba,
        forall|x: int|
            t.header.first_usable_lba <= x <= t.header.last_usable_lba
                ==> #[trigger] layout::is_free_sector(t, x),
{
    header::lemma_array_sectors(t.header, sector_size);
    assert forall|i: int| 0 <= i < 128 implies #[trigger] t.partitions[i]
        == partition::empty_entry() && !partition::is_used_entry(t.partitions[i]) by {}
    lemma_no_used_lbas(t.partitions);
    assert(t.partitions.len() == 128);
    assert(partition::ENTRY_SIZE * t.partitions.len() == 16384) by (nonlinear_arith)
        requires
            partition::ENTRY_SIZE == 128,
            t.partitions.len() == 128,
    ;
    law_room_suffices(t, len);
}

proof fn lemma_no_used_lbas(entries: Seq<EntryModel>)
    requires
        forall|i: int|
            0 <= i < entries.len() ==> !partition::is_used_entry(#[trigger] entries[i]),
    ensures
        table::used_lbas(entries).len() == 0,
    decreases entries.len(),
{
    if entries.len() > 0 {
        let front = entries.drop_last();
        assert forall|i: int| 0 <= i < front.len() implies !partition::is_used_entry(
            #[trigger] front[i],
        ) by {
            assert(!partition::is_used_entry(entries[i]));
        }
        lemma_no_used_lbas(front);
        assert(!partition::is_used_entry(entries[entries.len() - 1]));
    }
}

proof fn lemma_apply_held(d: Seq<u8>, writes: Seq<WriteModel>)
    requires
        forall|i: int| 0 <= i < writes.len() ==> holds(d, #[trigger] writes[i]),
    ensures
        disk::apply_writes(d, writes) == d,
    decreases writes.len(),
{
    if writes.len() > 0 {
        let front = writes.drop_last();
        let w = writes.last();
        assert forall|i: int| 0 <= i < front.len() implies holds(d, #[trigger] front[i]) by {
            assert(holds(d, writes[i]));
        }
        lemma_apply_held(d, front);
        assert(holds(d, writes[writes.len() - 1]));
        let s = d.subrange(w.offset as int, (w.offset + w.bytes.len()) as int);
        assert forall|i: int| w.offset <= i < w.offset + w.bytes.len() implies d[i] == w.bytes[i
            - w.offset] by {
            assert(s[i - w.offset] == w.bytes[i - w.offset]);
        }
        assert(disk::overwrite(d, w) =~= d);
    }
}

/// A table that is written to a disk for the second time stays as it was after the first time,
/// and so does the disk, unless its own header is in the second sector and the entries of it had
/// to move.
pub proof fn law_write_twice(t: TableModel, d: Seq<u8>)
    requires
        d.len() <= u64::MAX,
        is_regular(t),
        has_room(t, d.len() as u64),
        writer::can_write_table(t, d.len() as u64),
        t.header.primary_lba != 1 || writer::placed_header(
            t,
            d.len() as u64,
        ).partition_entry_lba == t.header.partition_entry_lba,
    ensures
        writer::written_table(writer::written_table(t, d.len() as u64), d.len() as u64)
            == writer::written_table(t, d.len() as u64),
        written_disk(writer::written_table(t, d.len() as u64), written_disk(t, d)) == written_disk(
            t,
            d,
        ),
{
    let len = d.len() as u64;
    let u = writer::written_table(t, len);
    let r = written_disk(t, d);
    let h = writer::placed_header(t, len);
    let all = writer::table_writes(t, len);
    lemma_geometry(t, len);
    law_write_puts_both_copies(t, d);
    let sealed = header::sealed_header(h, t.partitions);
    let again = writer::placed_header(u, len);
    assert(again == sealed);
    assert(header::sealed_header(again, t.partitions) =~= sealed) by {
        assert(HeaderModel { crc32_checksum: 0, ..sealed } =~= HeaderModel {
            crc32_checksum: 0,
            ..HeaderModel {
                partition_entry_array_crc32: header::entries_checksum(t.partitions),
                ..sealed
            }
        });
        assert(HeaderModel { crc32_checksum: 0, ..sealed } =~= HeaderModel {
            crc32_checksum: 0,
            ..HeaderModel {
                partition_entry_array_crc32: header::entries_checksum(t.partitions),
                ..h
            }
        });
    }
    let m = writer::mirrored_header(h);
    let sealed_m = header::sealed_header(m, t.partitions);
    assert(header::sealed_header(writer::mirrored_header(again), t.partitions) =~= sealed_m) by {
        assert(HeaderModel {
            partition_entry_array_crc32: header::entries_checksum(t.partitions),
            crc32_checksum: 0,
            ..writer::mirrored_header(again)
        } =~= HeaderModel {
            partition_entry_array_crc32: header::entries_checksum(t.partitions),
            crc32_checksum: 0,
            ..m
        });
    }
    assert(writer::table_writes(u, len) == all);
    let a = header::copy_writes(sealed, t.sector_size, t.partitions);
    let b = header::copy_writes(sealed_m, t.sector_size, t.partitions);
    assert forall|i: int| 0 <= i < all.len() implies holds(r, #[trigger] all[i]) by {
        if i < a.len() {
            assert(holds(r, a[i]));
        } else {
            assert(holds(r, b[i - a.len()]));
        }
    }
    lemma_apply_held(r, all);
}

/// What finding the table of a disk gives to which a table was just written, with sectors of 512
/// bytes, or with sectors of 4096 bytes where reading with sectors of 512 bytes fails.
pub proof fn law_find_after_write(t: TableModel, d: Seq<u8>)
    requires
        d.len() <= u64::MAX,
        is_regular(t),
        has_room(t, d.len() as u64),
        writer::can_write_table(t, d.len() as u64),
        table::has_alignment(first_header(t, d.len() as u64).first_usable_lba, t.partitions),
        t.sector_size == 512 || t.sector_size == 4096 && reader::read_outcome(
            written_disk(t, d),
            512,
        ) matches Some(Err(_)),
    ensures
        reader::find_outcome(written_disk(t, d)) == Some(
            Ok::<TableModel, ErrorModel>(stored_table(t, first_header(t, d.len() as u64))),
        ),
{
    law_read_after_write(t, d);
}

/// Reading with sectors of 512 bytes fails after a table with sectors of 4096 bytes was written
/// to a disk that had no header where one would be with sectors of 512 bytes.
pub proof fn law_large_sectors_leave_no_small_header(t: TableModel, d: Seq<u8>)
    requires
        d.len() <= u64::MAX,
        has_shape(t),
        has_room(t, d.len() as u64),
        writer::can_write_table(t, d.len() as u64),
        t.sector_size == 4096,
        d.len() % 4096 == 0,
        header::parse_header(bytes::tail_at(d, 512)) is Err,
        header::parse_header(bytes::tail_at(d, d.len() - 512)) is Err,
    ensures
        reader::read_outcome(written_disk(t, d), 512) matches Some(Err(_)),
{
    lemma_small_places_are_kept(t, d);
    lemma_small_places_fail(written_disk(t, d), d);
}

/// Reading a disk fails that has, where a header would be, the bytes of one that has none there.
proof fn lemma_small_places_fail(r: Seq<u8>, d: Seq<u8>)
    requires
        r.len() == d.len(),
        d.len() >= 8192,
        d.len() % 4096 == 0,
        reader::window(r, 512, 92) == reader::window(d, 512, 92),
        reader::window(r, d.len() - 512, 92) == reader::window(d, d.len() - 512, 92),
        header::parse_header(bytes::tail_at(d, 512)) is Err,
        header::parse_header(bytes::tail_at(d, d.len() - 512)) is Err,
    ensures
        reader::read_outcome(r, 512) matches Some(Err(_)),
{
    lemma_same_window(r, d, 512);
    lemma_same_window(r, d, d.len() - 512);
    lemma_small_read_fails(r);
}

/// Two disks have the same header where they have the same bytes.
proof fn lemma_same_window(r: Seq<u8>, d: Seq<u8>, offset: int)
    requires
        offset >= 0,
        reader::window(r, offset, 92) == reader::window(d, offset, 92),
    ensures
        header::parse_header(bytes::tail_at(r, offset)) == header::parse_header(
            bytes::tail_at(d, offset),
        ),
{
    reader::lemma_window_header(r, offset);
    reader::lemma_window_header(d, offset);
}

/// Reading a disk fails that has no header where one would be.
proof fn lemma_small_read_fails(r: Seq<u8>)
    requires
        r.len() >= 512,
        r.len() % 512 == 0,
        header::parse_header(bytes::tail_at(r, 512)) is Err,
        header::parse_header(bytes::tail_at(r, r.len() - 512)) is Err,
    ensures
        reader::read_outcome(r, 512) matches Some(Err(_)),
{
    assert(reader::backup_offset(r.len() as int, 512) == r.len() - 512);
}

proof fn lemma_small_places_are_kept(t: TableModel, d: Seq<u8>)
    requires
        d.len() <= u64::MAX,
        has_shape(t),
        has_room(t, d.len() as u64),
        writer::can_write_table(t, d.len() as u64),
        t.sector_size == 4096,
        d.len() % 4096 == 0,
    ensures
        written_disk(t, d).len() == d.len(),
        d.len() >= 8192,
        reader::window(written_disk(t, d), 512, 92) == reader::window(d, 512, 92),
        reader::window(written_disk(t, d), d.len() - 512, 92) == reader::window(
            d,
            d.len() - 512,
            92,
        ),
{
    let r = written_disk(t, d);
    let len = d.len() as u64;
    let f = first_header(t, len);
    let l = last_header(t, len);
    lemma_geometry(t, len);
    header::lemma_array_sectors(t.header, t.sector_size);
    law_write_puts_both_copies(t, d);
    assert forall|x: int| len - 512 <= x < len implies #[trigger] r[x] == d[x] by {
        assert(!is_in_copy(f, t.sector_size, x));
        assert(!is_in_copy(l, t.sector_size, x));
    }
    assert(reader::window(r, 512, 92) =~= reader::window(d, 512, 92));
    assert(reader::window(r, len - 512, 92) =~= reader::window(d, len - 512, 92));
}

} // verus!
