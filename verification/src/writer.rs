//! Writing a partition table: where its two copies go, and what is read where they went.

use vstd::prelude::*;
use crate::disk;
use crate::disk::{DiskWrite, WriteModel};
use crate::error::Error;
use crate::header;
use crate::header::{GPTHeader, HeaderModel};
use crate::medium;
use crate::partition;
use crate::storage;
use crate::table;
use crate::table::{TableModel, GPT};

verus! {

/// The header of a table, fitted to a disk of `len` bytes. Its entries are in the third sector if
/// they were there, and otherwise after the last usable sector. The entries of the other header
/// take the other place.
pub open spec fn placed_header(t: TableModel, len: u64) -> HeaderModel {
    let h = header::updated_header(t.header, len, t.sector_size);
    HeaderModel {
        partition_entry_lba: if h.partition_entry_lba == 2 {
            2
        } else {
            (h.last_usable_lba + 1) as u64
        },
        ..h
    }
}

/// The other header of a table: at the other end of the disk, with its entries next to it.
pub open spec fn mirrored_header(h: HeaderModel) -> HeaderModel {
    HeaderModel {
        primary_lba: h.backup_lba,
        backup_lba: h.primary_lba,
        partition_entry_lba: if h.partition_entry_lba == 2 {
            (h.last_usable_lba + 1) as u64
        } else {
            2
        },
        ..h
    }
}

/// Whether a table can be written to a disk of `len` bytes.
pub open spec fn can_write_table(t: TableModel, len: u64) -> bool {
    let h = placed_header(t, len);
    &&& header::can_update(t.header, len, t.sector_size)
    &&& header::can_write(h, t.sector_size, t.partitions)
    &&& header::can_write(mirrored_header(h), t.sector_size, t.partitions)
}

/// A table after it was written to a disk of `len` bytes.
pub open spec fn written_table(t: TableModel, len: u64) -> TableModel {
    TableModel { header: header::sealed_header(placed_header(t, len), t.partitions), ..t }
}

/// The writes that put a table on a disk of `len` bytes: its own header and the entries next to
/// it, and then the other header and the entries next to that.
pub open spec fn table_writes(t: TableModel, len: u64) -> Seq<WriteModel> {
    let h = placed_header(t, len);
    header::copy_writes(header::sealed_header(h, t.partitions), t.sector_size, t.partitions)
        + header::copy_writes(
        header::sealed_header(mirrored_header(h), t.partitions),
        t.sector_size,
        t.partitions,
    )
}

/// Whether all that is written has positions that a disk in memory can have.
pub open spec fn fits_in_memory(t: TableModel, len: u64) -> bool {
    let h = placed_header(t, len);
    &&& disk::writes_fit(header::copy_writes(h, t.sector_size, t.partitions))
    &&& disk::writes_fit(header::copy_writes(mirrored_header(h), t.sector_size, t.partitions))
}

impl GPT {
    /// The header, fitted to a disk of `len` bytes, with its entries next to it.
    fn place(&self, len: u64) -> (r: GPTHeader)
        requires
            header::can_update(self@.header, len, self@.sector_size),
        ensures
            r@ == placed_header(self@, len),
            r.last_usable_lba < u64::MAX,
    {
        proof {
            header::lemma_array_sectors(self@.header, self@.sector_size);
        }
        let mut h = self.header;
        h.update_from(len, self.sector_size);
        if h.partition_entry_lba != 2 {
            h.partition_entry_lba = h.last_usable_lba + 1;
        }
        assert(h@ =~= placed_header(self@, len));
        h
    }

    /// Whether the GPT can be written to a disk of `len` bytes.
    pub fn can_write_into(&self, len: u64) -> (r: bool)
        ensures
            r == can_write_table(self@, len),
    {
        if !self.header.can_update_from(len, self.sector_size) {
            return false;
        }
        let h = self.place(len);
        let m = mirror(&h);
        h.can_write_into(self.sector_size, self.partitions.as_slice()) && m.can_write_into(
            self.sector_size,
            self.partitions.as_slice(),
        )
    }

    /// The writes that put the GPT on a disk of `len` bytes: the primary header and the backup
    /// header, each with the partition entries, at their proper location. The header is updated
    /// to match the disk.
    ///
    /// # Errors
    /// This function will return an error if there are partitions with the same GUID; nothing is
    /// changed.
    pub fn plan_write(&mut self, len: u64) -> (r: Result<Vec<DiskWrite>, Error>)
        requires
            table::distinct_guids(old(self)@.partitions) ==> can_write_table(old(self)@, len),
        ensures
            match r {
                Ok(writes) => {
                    &&& table::distinct_guids(old(self)@.partitions)
                    &&& final(self)@ == written_table(old(self)@, len)
                    &&& disk::write_models(writes@) == table_writes(old(self)@, len)
                },
                Err(e) => {
                    &&& !table::distinct_guids(old(self)@.partitions)
                    &&& e == Error::ConflictPartitionGUID
                    &&& final(self)@ == old(self)@
                },
            },
    {
        match self.check_partition_guids() {
            Ok(()) => {},
            Err(e) => return Err(e),
        }
        self.header = self.place(len);
        let mut backup = mirror(&self.header);
        let mut writes = self.header.plan_write(self.sector_size, self.partitions.as_slice());
        let mut more = backup.plan_write(self.sector_size, self.partitions.as_slice());
        let ghost first = writes@;
        let ghost second = more@;
        writes.append(&mut more);
        assert(disk::write_models(writes@) =~= disk::write_models(first) + disk::write_models(
            second,
        ));
        Ok(writes)
    }

    /// Writes the GPT to a disk in memory: the primary header and the backup header, each with
    /// the partition entries, at their proper location. The header is updated to match the disk.
    ///
    /// # Errors
    /// This function will return an error if there are partitions with the same GUID; nothing is
    /// written.
    pub fn write_into(&mut self, disk: &mut Vec<u8>) -> (r: Result<(), Error>)
        requires
            table::distinct_guids(old(self)@.partitions) ==> can_write_table(
                old(self)@,
                old(disk)@.len() as u64,
            ) && fits_in_memory(old(self)@, old(disk)@.len() as u64),
        ensures
            match r {
                Ok(()) => {
                    &&& table::distinct_guids(old(self)@.partitions)
                    &&& final(self)@ == written_table(old(self)@, old(disk)@.len() as u64)
                    &&& final(disk)@ == disk::apply_writes(
                        old(disk)@,
                        table_writes(old(self)@, old(disk)@.len() as u64),
                    )
                    &&& storage::has_shape(old(self)@) && storage::has_room(
                        old(self)@,
                        old(disk)@.len() as u64,
                    ) ==> {
                        &&& final(disk)@.len() == old(disk)@.len()
                        &&& medium::shows_copy(final(disk)@, old(self)@, 1)
                        &&& medium::shows_copy(
                            final(disk)@,
                            old(self)@,
                            old(disk)@.len() as int / (old(self)@.sector_size as int) - 1,
                        )
                    }
                },
                Err(e) => {
                    &&& !table::distinct_guids(old(self)@.partitions)
                    &&& e == Error::ConflictPartitionGUID
                    &&& final(self)@ == old(self)@
                    &&& final(disk)@ == old(disk)@
                },
            },
    {
        let len: u64 = disk.len() as u64;
        let ghost t = self@;
        let writes = match self.plan_write(len) {
            Ok(writes) => writes,
            Err(e) => return Err(e),
        };
        proof {
            lemma_writes_fit(t, len);
            if storage::has_shape(t) && storage::has_room(t, len) {
                medium::lemma_both_copies(t, disk@);
            }
        }
        disk::write_all(disk, &writes);
        Ok(())
    }
}

/// The other header of a table.
fn mirror(h: &GPTHeader) -> (r: GPTHeader)
    requires
        h.last_usable_lba < u64::MAX,
    ensures
        r@ == mirrored_header(h@),
{
    let mut backup = *h;
    backup.primary_lba = h.backup_lba;
    backup.backup_lba = h.primary_lba;
    backup.partition_entry_lba = if h.partition_entry_lba == 2 {
        h.last_usable_lba + 1
    } else {
        2
    };
    assert(backup@ =~= mirrored_header(h@));
    backup
}

/// The checksums of the headers do not change where the writes go.
proof fn lemma_writes_fit(t: TableModel, len: u64)
    requires
        fits_in_memory(t, len),
        header::has_arrays(t.header),
    ensures
        disk::writes_fit(table_writes(t, len)),
{
    let h = placed_header(t, len);
    let m = mirrored_header(h);
    let sealed_h = header::sealed_header(h, t.partitions);
    let sealed_m = header::sealed_header(m, t.partitions);
    let a = header::copy_writes(h, t.sector_size, t.partitions);
    let b = header::copy_writes(m, t.sector_size, t.partitions);
    let all = table_writes(t, len);
    header::lemma_encode_header_len(h);
    header::lemma_encode_header_len(m);
    header::lemma_encode_header_len(sealed_h);
    header::lemma_encode_header_len(sealed_m);
    assert forall|i: int| 0 <= i < all.len() implies (#[trigger] all[i]).offset
        + all[i].bytes.len() <= usize::MAX by {
        if i < a.len() {
            assert(a[i].offset + a[i].bytes.len() <= usize::MAX);
        } else {
            assert(b[i - a.len()].offset + b[i - a.len()].bytes.len() <= usize::MAX);
        }
    }
}

} // verus!
