//! Disks as sequences of bytes, and the writes that change them.

use vstd::prelude::*;

verus! {

/// Some bytes and the position (in bytes) on the disk where they belong.
#[derive(Debug)]
pub struct DiskWrite {
    /// The position of the first byte.
    pub offset: u64,
    /// The bytes.
    pub bytes: Vec<u8>,
}

/// What a [`DiskWrite`] says.
#[verifier::ext_equal]
pub struct WriteModel {
    pub offset: nat,
    pub bytes: Seq<u8>,
}

impl View for DiskWrite {
    type V = WriteModel;

    open spec fn view(&self) -> WriteModel {
        WriteModel { offset: self.offset as nat, bytes: self.bytes@ }
    }
}

/// What the writes of a vector say, in order.
pub open spec fn write_models(s: Seq<DiskWrite>) -> Seq<WriteModel> {
    s.map_values(|w: DiskWrite| w@)
}

/// A disk after one write. A disk that ends before the write does grows, with zeros up to where
/// the write starts.
pub open spec fn overwrite(disk: Seq<u8>, w: WriteModel) -> Seq<u8> {
    let end = w.offset + w.bytes.len();
    if w.bytes.len() == 0 {
        disk
    } else {
        Seq::new(
            if disk.len() < end {
                end
            } else {
                disk.len()
            },
            |i: int|
                if w.offset <= i < end {
                    w.bytes[i - w.offset]
                } else if i < disk.len() {
                    disk[i]
                } else {
                    0u8
                },
        )
    }
}

/// A disk after some writes, the first of them first.
pub open spec fn apply_writes(disk: Seq<u8>, writes: Seq<WriteModel>) -> Seq<u8>
    decreases writes.len(),
{
    if writes.len() == 0 {
        disk
    } else {
        overwrite(apply_writes(disk, writes.drop_last()), writes.last())
    }
}

/// Whether all the bytes of some writes have positions that a vector can have.
pub open spec fn writes_fit(writes: Seq<WriteModel>) -> bool {
    forall|i: int|
        0 <= i < writes.len() ==> (#[trigger] writes[i]).offset + writes[i].bytes.len()
            <= usize::MAX
}

/// Writes some bytes into a disk in memory.
fn write_at(disk: &mut Vec<u8>, w: &DiskWrite)
    requires
        w.offset + w.bytes@.len() <= usize::MAX,
    ensures
        final(disk)@ == overwrite(old(disk)@, w@),
{
    let n = w.bytes.len();
    if n == 0 {
        return;
    }
    let start: usize = w.offset as usize;
    if disk.len() < start + n {
        disk.resize(start + n, 0);
    }
    let ghost grown = disk@;
    assert forall|j: int| 0 <= j < grown.len() implies #[trigger] grown[j] == if j < old(
        disk,
    )@.len() {
        old(disk)@[j]
    } else {
        0u8
    } by {
        if j < old(disk)@.len() && old(disk)@.len() < start + n {
            assert(grown.subrange(0, old(disk)@.len() as int)[j] == old(disk)@[j]);
        }
    }
    let mut i: usize = 0;
    while i < n
        invariant
            i <= n,
            n == w.bytes@.len(),
            start == w.offset,
            start + n <= grown.len(),
            grown.len() <= usize::MAX,
            disk@.len() == grown.len(),
            forall|j: int|
                0 <= j < grown.len() ==> #[trigger] disk@[j] == if start <= j < start + i {
                    w.bytes@[j - start]
                } else {
                    grown[j]
                },
        decreases n - i,
    {
        disk[start + i] = w.bytes[i];
        i = i + 1;
    }
    assert(disk@ =~= overwrite(old(disk)@, w@));
}

/// Does some writes on a disk in memory, the first of them first.
pub fn write_all(disk: &mut Vec<u8>, writes: &Vec<DiskWrite>)
    requires
        writes_fit(write_models(writes@)),
    ensures
        final(disk)@ == apply_writes(old(disk)@, write_models(writes@)),
{
    let ghost all = write_models(writes@);
    let mut i: usize = 0;
    assert(all.take(0).len() == 0);
    while i < writes.len()
        invariant
            i <= writes@.len(),
            all == write_models(writes@),
            writes_fit(all),
            disk@ == apply_writes(old(disk)@, all.take(i as int)),
        decreases writes@.len() - i,
    {
        assert(all[i as int] == writes@[i as int]@);
        write_at(disk, &writes[i]);
        assert(all.take(i + 1).drop_last() =~= all.take(i as int));
        i = i + 1;
    }
    assert(all.take(writes@.len() as int) =~= all);
}

} // verus!
