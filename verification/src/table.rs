//! The partition table: its header and its partition entries, and what can be done with them.

use vstd::prelude::*;
use crate::error::Error;
use crate::header;
use crate::header::{GPTHeader, HeaderModel};
use crate::meaning;
use crate::order;
use crate::partition;
use crate::partition::{same_guid, EntryModel, GPTPartitionEntry};

verus! {

/// The alignment (in sectors) of a table that has no partition to tell it from.
pub const DEFAULT_ALIGN: u64 = 2048;

/// The largest alignment (in sectors) that is told from the partitions of a table.
pub const MAX_ALIGN: u64 = 16384;

/// What a partition table says.
#[verifier::ext_equal]
pub struct TableModel {
    pub sector_size: u64,
    pub header: HeaderModel,
    pub partitions: Seq<EntryModel>,
    pub align: u64,
}

/// A type representing a GUID partition table including its partition, the sector size of the disk
/// and the alignment of the partitions to the sectors.
#[derive(Debug)]
pub struct GPT {
    /// Sector size of the disk.
    ///
    /// You should not change this, otherwise the starting locations of your partitions will be
    /// different in bytes.
    pub sector_size: u64,
    /// GPT partition header (disk GUID, first/last usable LBA, etc...)
    pub header: GPTHeader,
    pub(crate) partitions: Vec<GPTPartitionEntry>,
    /// Partitions alignment (in sectors)
    ///
    /// This field changes the behavior of the methods `get_maximum_partition_size()`,
    /// `find_free_sectors()`, `find_first_place()`, `find_last_place()` and `find_optimal_place()`
    /// so they return only values aligned to the alignment.
    ///
    /// The value must be greater than 0.
    pub align: u64,
}

impl GPT {
    /// The partition entries, in order.
    pub(crate) open(crate) spec fn entries(&self) -> Seq<EntryModel> {
        partition::entry_models(self.partitions@)
    }

    /// Whether the table has as many partition entries as its header says.
    pub open spec fn is_complete(&self) -> bool {
        self@.partitions.len() == self@.header.number_of_partition_entries
    }
}

impl View for GPT {
    type V = TableModel;

    open(crate) spec fn view(&self) -> TableModel {
        TableModel {
            sector_size: self.sector_size,
            header: self.header@,
            partitions: self.entries(),
            align: self.align,
        }
    }
}

impl Clone for GPT {
    fn clone(&self) -> (r: GPT)
        ensures
            r@ == self@,
    {
        let mut partitions: Vec<GPTPartitionEntry> = Vec::new();
        let mut i: usize = 0;
        while i < self.partitions.len()
            invariant
                i <= self.partitions@.len(),
                partition::entry_models(partitions@) =~= self.entries().take(i as int),
            decreases self.partitions@.len() - i,
        {
            let ghost before = partitions@;
            let e = self.partitions[i].clone();
            partitions.push(e);
            assert(partition::entry_models(partitions@) =~= partition::entry_models(before).push(
                e@,
            ));
            assert(self.entries().take(i + 1) =~= self.entries().take(i as int).push(
                self.entries()[i as int],
            ));
            i = i + 1;
        }
        assert(self.entries().take(i as int) =~= self.entries());
        GPT { sector_size: self.sector_size, header: self.header, partitions, align: self.align }
    }
}

/// The starting LBAs of the entries that are used, in order.
pub open spec fn used_lbas(entries: Seq<EntryModel>) -> Seq<u64>
    decreases entries.len(),
{
    if entries.len() == 0 {
        Seq::empty()
    } else {
        let front = used_lbas(entries.drop_last());
        if partition::is_used_entry(entries.last()) {
            front.push(entries.last().starting_lba)
        } else {
            front
        }
    }
}

/// Whether all of some LBAs are multiples of `d`.
pub open spec fn divides_all(d: int, lbas: Seq<u64>) -> bool {
    forall|i: int| 0 <= i < lbas.len() ==> (#[trigger] lbas[i] as int) % d == 0
}

/// The largest of some LBAs, or zero.
pub open spec fn largest_lba(lbas: Seq<u64>) -> u64
    decreases lbas.len(),
{
    if lbas.len() == 0 {
        0
    } else if largest_lba(lbas.drop_last()) < lbas.last() {
        lbas.last()
    } else {
        largest_lba(lbas.drop_last())
    }
}

/// The largest number from 1 to `n` that all of some LBAs are multiples of.
pub open spec fn largest_divisor(lbas: Seq<u64>, n: nat) -> nat
    decreases n,
{
    if n <= 1 || divides_all(n as int, lbas) {
        n
    } else {
        largest_divisor(lbas, (n - 1) as nat)
    }
}

/// Whether the partitions of a table tell its alignment: not if the used entries all start at
/// sector zero, unless there is just one and that is the first usable sector.
pub open spec fn has_alignment(first_usable_lba: u64, entries: Seq<EntryModel>) -> bool {
    let lbas = used_lbas(entries);
    lbas.len() == 0 || lbas =~= seq![first_usable_lba] || largest_lba(lbas) > 0
}

/// The alignment that the partitions of a table tell: the largest one, up to a limit, by which
/// they all start.
pub open spec fn alignment(first_usable_lba: u64, entries: Seq<EntryModel>) -> u64 {
    let lbas = used_lbas(entries);
    if lbas.len() == 0 {
        DEFAULT_ALIGN
    } else if lbas =~= seq![first_usable_lba] {
        1
    } else if largest_lba(lbas) < MAX_ALIGN {
        largest_divisor(lbas, largest_lba(lbas) as nat) as u64
    } else {
        largest_divisor(lbas, MAX_ALIGN as nat) as u64
    }
}

/// Whether no two entries that are used have the same GUID.
pub open spec fn distinct_guids(entries: Seq<EntryModel>) -> bool {
    forall|i: int, j: int|
        0 <= i < j < entries.len() && partition::is_used_entry(entries[i])
            && partition::is_used_entry(entries[j]) ==> (#[trigger] entries[i]).unique_parition_guid
            != (#[trigger] entries[j]).unique_parition_guid
}

/// The order of the entries of a sorted table: the used ones by their starting LBA, and then the
/// others.
pub open spec fn entry_order() -> spec_fn(EntryModel, EntryModel) -> bool {
    |a: EntryModel, b: EntryModel|
        partition::is_used_entry(a) && (!partition::is_used_entry(b) || a.starting_lba
            < b.starting_lba)
}

proof fn lemma_largest_divisor(lbas: Seq<u64>, n: nat)
    requires
        n >= 1,
    ensures
        1 <= largest_divisor(lbas, n) <= n,
        divides_all(largest_divisor(lbas, n) as int, lbas),
        forall|d: int|
            #![trigger divides_all(d, lbas)]
            largest_divisor(lbas, n) < d <= n ==> !divides_all(d, lbas),
    decreases n,
{
    if n > 1 && !divides_all(n as int, lbas) {
        lemma_largest_divisor(lbas, (n - 1) as nat);
    }
}

/// The alignment of a table that has partitions is a divisor of where they all start, and none
/// that is larger, within the limit and the largest start, is.
pub proof fn law_alignment_is_largest_divisor(first_usable_lba: u64, entries: Seq<EntryModel>)
    requires
        has_alignment(first_usable_lba, entries),
        used_lbas(entries).len() > 0,
        used_lbas(entries) != seq![first_usable_lba],
    ensures
        ({
            let lbas = used_lbas(entries);
            let a = alignment(first_usable_lba, entries);
            &&& 1 <= a <= MAX_ALIGN
            &&& divides_all(a as int, lbas)
            &&& forall|d: int|
                #![trigger divides_all(d, lbas)]
                a < d <= MAX_ALIGN && d <= largest_lba(lbas) ==> !divides_all(d, lbas)
        }),
{
    let lbas = used_lbas(entries);
    if largest_lba(lbas) < MAX_ALIGN {
        lemma_largest_divisor(lbas, largest_lba(lbas) as nat);
    } else {
        lemma_largest_divisor(lbas, MAX_ALIGN as nat);
    }
}

pub proof fn lemma_entry_order()
    ensures
        order::is_weak_order(entry_order()),
{
}

/// Sorting the entries of a table sorts them, neither adds nor drops one, leaves the order of
/// entries that start alike and that of the unused ones as it is, and changes nothing the second
/// time.
pub proof fn law_sort(entries: Seq<EntryModel>)
    ensures
        order::is_sorted(order::sort_by(entries, entry_order()), entry_order()),
        order::sort_by(entries, entry_order()).to_multiset() == entries.to_multiset(),
        order::sort_by(entries, entry_order()).len() == entries.len(),
        forall|e: EntryModel|
            #![trigger partition::is_used_entry(e)]
            order::sort_by(entries, entry_order()).filter(
                |x: EntryModel| order::ties(x, e, entry_order()),
            ) == entries.filter(|x: EntryModel| order::ties(x, e, entry_order())),
        order::sort_by(order::sort_by(entries, entry_order()), entry_order()) == order::sort_by(
            entries,
            entry_order(),
        ),
{
    let before = entry_order();
    lemma_entry_order();
    order::lemma_sort_by(entries, before);
    order::lemma_sort_by_of_sorted(order::sort_by(entries, before), before);
    assert forall|e: EntryModel|
        #![trigger partition::is_used_entry(e)]
        order::sort_by(entries, before).filter(|x: EntryModel| order::ties(x, e, before))
            == entries.filter(|x: EntryModel| order::ties(x, e, before)) by {
        order::lemma_sort_by_is_stable(entries, before, e);
    }
}

/// Whether the partitions of a table tell its alignment.
pub(crate) fn tells_alignment(header: &GPTHeader, partitions: &[GPTPartitionEntry]) -> (r: bool)
    ensures
        r == has_alignment(header.first_usable_lba, partition::entry_models(partitions@)),
{
    let lbas = collect_lbas(partitions);
    if lbas.len() == 0 || (lbas.len() == 1 && lbas[0] == header.first_usable_lba) {
        assert(lbas@.len() == 1 ==> lbas@ =~= seq![lbas@[0]]);
        return true;
    }
    assert(lbas@ != seq![header.first_usable_lba]) by {
        if lbas@ == seq![header.first_usable_lba] {
            assert(lbas@[0] == header.first_usable_lba);
        }
    }
    max_lba(&lbas) > 0
}

/// The starting LBAs of the entries that are used.
fn collect_lbas(partitions: &[GPTPartitionEntry]) -> (r: Vec<u64>)
    ensures
        r@ == used_lbas(partition::entry_models(partitions@)),
{
    let ghost entries = partition::entry_models(partitions@);
    let mut lbas: Vec<u64> = Vec::new();
    let mut i: usize = 0;
    assert(entries.take(0).len() == 0);
    while i < partitions.len()
        invariant
            i <= partitions@.len(),
            entries == partition::entry_models(partitions@),
            lbas@ == used_lbas(entries.take(i as int)),
        decreases partitions@.len() - i,
    {
        assert(entries.take(i + 1).drop_last() =~= entries.take(i as int));
        assert(entries.take(i + 1).last() == partitions@[i as int]@);
        if partitions[i].is_used() {
            lbas.push(partitions[i].starting_lba);
        }
        i = i + 1;
    }
    assert(entries.take(i as int) =~= entries);
    lbas
}

/// The largest of some LBAs.
fn max_lba(lbas: &Vec<u64>) -> (r: u64)
    ensures
        r == largest_lba(lbas@),
{
    let mut max: u64 = 0;
    let mut i: usize = 0;
    assert(lbas@.take(0).len() == 0);
    while i < lbas.len()
        invariant
            i <= lbas@.len(),
            max == largest_lba(lbas@.take(i as int)),
        decreases lbas@.len() - i,
    {
        assert(lbas@.take(i + 1).drop_last() =~= lbas@.take(i as int));
        if max < lbas[i] {
            max = lbas[i];
        }
        i = i + 1;
    }
    assert(lbas@.take(i as int) =~= lbas@);
    max
}

/// Whether all of some LBAs are multiples of `d`.
fn all_multiples(d: u64, lbas: &Vec<u64>) -> (r: bool)
    requires
        d > 0,
    ensures
        r == divides_all(d as int, lbas@),
{
    let mut i: usize = 0;
    while i < lbas.len()
        invariant
            i <= lbas@.len(),
            d > 0,
            forall|j: int| 0 <= j < i ==> (#[trigger] lbas@[j] as int) % (d as int) == 0,
        decreases lbas@.len() - i,
    {
        if lbas[i] % d != 0 {
            assert(lbas@[i as int] as int % (d as int) != 0);
            return false;
        }
        i = i + 1;
    }
    true
}

impl GPT {
    /// Makes a new GPT for a disk of `len` bytes. (This operation does not write anything to
    /// disk!)
    pub fn new_from(len: u64, sector_size: u64, disk_guid: [u8; 16]) -> (r: GPT)
        requires
            header::can_update(header::blank_header(disk_guid@), len, sector_size),
        ensures
            r.is_complete(),
            r@ == (TableModel {
                sector_size,
                header: header::updated_header(
                    header::blank_header(disk_guid@),
                    len,
                    sector_size,
                ),
                partitions: Seq::new(128, |i: int| partition::empty_entry()),
                align: DEFAULT_ALIGN,
            }),
            r@.align == 2048,
            r@.sector_size == sector_size,
            r@.header.disk_guid == disk_guid@,
            r@.partitions.len() == 128,
            meaning::none_taken(r@.partitions),
    {
        proof {
            meaning::law_blank_header(disk_guid@);
            meaning::law_empty_entry();
        }
        let header = GPTHeader::new_from(len, sector_size, disk_guid);
        let mut partitions: Vec<GPTPartitionEntry> = Vec::with_capacity(
            header.number_of_partition_entries as usize,
        );
        let mut i: u32 = 0;
        while i < header.number_of_partition_entries
            invariant
                i <= header.number_of_partition_entries,
                partitions@.len() == i,
                forall|j: int| 0 <= j < i ==> (#[trigger] partitions@[j])@
                    == partition::empty_entry(),
            decreases header.number_of_partition_entries - i,
        {
            partitions.push(GPTPartitionEntry::empty());
            i = i + 1;
        }
        let r = GPT { sector_size, header, partitions, align: DEFAULT_ALIGN };
        assert(r.entries() =~= Seq::new(128, |i: int| partition::empty_entry()));
        r
    }

    /// The alignment that the partitions of a table tell.
    pub fn find_alignment(header: &GPTHeader, partitions: &[GPTPartitionEntry]) -> (r: u64)
        requires
            has_alignment(header.first_usable_lba, partition::entry_models(partitions@)),
        ensures
            r == alignment(header.first_usable_lba, partition::entry_models(partitions@)),
            r > 0,
            forall|i: int|
                0 <= i < partitions@.len() && meaning::is_taken((#[trigger] partitions@[i])@)
                    ==> partitions@[i].starting_lba as int % (r as int) == 0,
    {
        proof {
            meaning::lemma_entries_in_memory(partitions@);
            meaning::law_alignment(header.first_usable_lba, partition::entry_models(partitions@));
            assert forall|i: int|
                0 <= i < partitions@.len() && meaning::is_taken(
                    (#[trigger] partitions@[i])@,
                ) implies meaning::is_taken(partition::entry_models(partitions@)[i]) by {}
        }
        let lbas = collect_lbas(partitions);
        if lbas.is_empty() {
            return DEFAULT_ALIGN;
        }
        if lbas.len() == 1 && lbas[0] == header.first_usable_lba {
            assert(lbas@ =~= seq![header.first_usable_lba]);
            return 1;
        }
        assert(lbas@ != seq![header.first_usable_lba]) by {
            if lbas@ == seq![header.first_usable_lba] {
                assert(lbas@[0] == header.first_usable_lba);
            }
        }
        let max: u64 = max_lba(&lbas);
        let limit: u64 = if max < MAX_ALIGN {
            max
        } else {
            MAX_ALIGN
        };
        let mut d: u64 = limit;
        while d > 1 && !all_multiples(d, &lbas)
            invariant
                1 <= d <= limit,
                largest_divisor(lbas@, limit as nat) == largest_divisor(lbas@, d as nat),
            decreases d,
        {
            d = d - 1;
        }
        d
    }

    /// Checks that no two partitions have the same GUID.
    ///
    /// # Errors
    /// This function will return an error if two partition entries that are used have the same
    /// `unique_parition_guid`.
    pub fn check_partition_guids(&self) -> (r: Result<(), Error>)
        ensures
            match r {
                Ok(()) => distinct_guids(self@.partitions),
                Err(e) => !distinct_guids(self@.partitions) && e == Error::ConflictPartitionGUID,
            },
            r is Ok <==> forall|i: int, j: int|
                0 <= i < j < self@.partitions.len() && meaning::is_taken(
                    #[trigger] self@.partitions[i],
                ) && meaning::is_taken(#[trigger] self@.partitions[j]) ==> meaning::differ(
                    self@.partitions[i].unique_parition_guid,
                    self@.partitions[j].unique_parition_guid,
                ),
    {
        let ghost entries = self@.partitions;
        proof {
            meaning::law_table_view(*self);
            meaning::law_distinct_guids(entries);
        }
        let mut j: usize = 0;
        assert(entries.take(0).len() == 0);
        while j < self.partitions.len()
            invariant
                j <= self.partitions@.len(),
                entries == self@.partitions,
                forall|a: int, b: int|
                    0 <= a < b < j && partition::is_used_entry(entries[a])
                        && partition::is_used_entry(entries[b]) ==> (
                    #[trigger] entries[a]).unique_parition_guid
                        != (#[trigger] entries[b]).unique_parition_guid,
            decreases self.partitions@.len() - j,
        {
            assert(entries[j as int] == self.partitions@[j as int]@);
            if self.partitions[j].is_used() {
                let mut i: usize = 0;
                while i < j
                    invariant
                        i <= j < self.partitions@.len(),
                        entries == self@.partitions,
                        partition::is_used_entry(entries[j as int]),
                        forall|a: int|
                            0 <= a < i && partition::is_used_entry(entries[a]) ==> (
                            #[trigger] entries[a]).unique_parition_guid
                                != entries[j as int].unique_parition_guid,
                    decreases j - i,
                {
                    assert(entries[i as int] == self.partitions@[i as int]@);
                    assert(entries[j as int] == self.partitions@[j as int]@);
                    if self.partitions[i].is_used() && same_guid(
                        &self.partitions[i].unique_parition_guid,
                        &self.partitions[j].unique_parition_guid,
                    ) {
                        proof {
                            meaning::law_table_view(*self);
                            meaning::law_distinct_guids(entries);
                        }
                        return Err(Error::ConflictPartitionGUID);
                    }
                    i = i + 1;
                }
            }
            j = j + 1;
        }
        Ok(())
    }

    /// Sorts the partition entries in the array by the starting LBA. Entries that are not used
    /// come last.
    pub fn sort(&mut self)
        ensures
            final(self)@ == (TableModel {
                partitions: order::sort_by(old(self)@.partitions, entry_order()),
                ..old(self)@
            }),
            final(self)@.partitions.to_multiset() == old(self)@.partitions.to_multiset(),
            forall|i: int, j: int|
                0 <= i < j < final(self)@.partitions.len() && meaning::is_taken(
                    #[trigger] final(self)@.partitions[j],
                ) ==> meaning::is_taken(#[trigger] final(self)@.partitions[i])
                    && final(self)@.partitions[i].starting_lba
                    <= final(self)@.partitions[j].starting_lba,
    {
        let ghost all = self@.partitions;
        proof {
            meaning::law_table_view(*self);
            meaning::law_sorted_by_start(all);
        }
        let ghost before = entry_order();
        let mut unsorted: Vec<GPTPartitionEntry> = Vec::new();
        core::mem::swap(&mut unsorted, &mut self.partitions);
        let mut sorted: Vec<GPTPartitionEntry> = Vec::new();
        assert(partition::entry_models(unsorted@) == all);
        assert(all.take(0).len() == 0);
        assert(partition::entry_models(sorted@) =~= order::sort_by(all.take(0), before));
        let ghost source = unsorted@;
        for e in it: unsorted
            invariant
                it.seq() == source,
                partition::entry_models(source) == all,
                before == entry_order(),
                partition::entry_models(sorted@) == order::sort_by(
                    all.take(it.index()),
                    before,
                ),
        {
            let ghost i = it.index();
            assert(e == source[i] && e@ == all[i]);
            let mut pos: usize = sorted.len();
            while pos > 0 && goes_before(&e, &sorted[pos - 1])
                invariant
                    pos <= sorted@.len(),
                    before == entry_order(),
                    forall|k: int|
                        pos <= k < sorted@.len() ==> before(e@, (#[trigger] sorted@[k])@),
                decreases pos,
            {
                pos = pos - 1;
            }
            let ghost models = partition::entry_models(sorted@);
            proof {
                assert forall|k: int| pos <= k < models.len() implies before(
                    e@,
                    #[trigger] models[k],
                ) by {
                    assert(models[k] == sorted@[k]@);
                }
                order::lemma_insert_by_at(models, e@, before, pos as int);
                assert(all.take(i + 1).drop_last() =~= all.take(i));
            }
            sorted.insert(pos, e);
            assert(partition::entry_models(sorted@) =~= models.insert(pos as int, e@));
        }
        assert(all.take(all.len() as int) =~= all);
        self.partitions = sorted;
    }

    /// Removes a partition entry in the array.
    ///
    /// This is the equivalent of:
    /// `gpt[i] = gptman::GPTPartitionEntry::empty();`
    ///
    /// # Errors
    /// This function will return an error if index is lesser or equal to 0 or greater than the
    /// number of partition entries (which can be obtained in the header).
    pub fn remove(&mut self, i: u32) -> (r: Result<(), Error>)
        requires
            i <= old(self)@.header.number_of_partition_entries ==> i <= old(self)@.partitions.len(),
        ensures
            match r {
                Ok(()) => 1 <= i <= old(self)@.header.number_of_partition_entries && final(self)@
                    == (TableModel {
                    partitions: old(self)@.partitions.update(i - 1, partition::empty_entry()),
                    ..old(self)@
                }) && !meaning::is_taken(final(self)@.partitions[i - 1]),
                Err(e) => (i == 0 || i > old(self)@.header.number_of_partition_entries) && e
                    == Error::InvalidPartitionNumber(i) && final(self)@ == old(self)@,
            },
    {
        if i == 0 || i > self.header.number_of_partition_entries {
            return Err(Error::InvalidPartitionNumber(i));
        }
        proof {
            meaning::law_empty_entry();
        }
        self.partitions[i as usize - 1] = GPTPartitionEntry::empty();
        assert(self.entries() =~= old(self).entries().update(i - 1, partition::empty_entry()));
        Ok(())
    }

    /// The partition entries and their index. The index always starts at 1.
    pub fn iter(&self) -> (r: Vec<(u32, &GPTPartitionEntry)>)
        requires
            self@.partitions.len() <= u32::MAX,
        ensures
            r@.len() == self@.partitions.len(),
            forall|i: int|
                0 <= i < r@.len() ==> (#[trigger] r@[i]).0 == i + 1 && r@[i].1@
                    == self@.partitions[i],
    {
        let mut r: Vec<(u32, &GPTPartitionEntry)> = Vec::new();
        let mut i: usize = 0;
        while i < self.partitions.len()
            invariant
                i <= self.partitions@.len() <= u32::MAX,
                r@.len() == i,
                forall|j: int|
                    0 <= j < i ==> (#[trigger] r@[j]).0 == j + 1 && r@[j].1@
                        == self@.partitions[j],
            decreases self.partitions@.len() - i,
        {
            r.push((i as u32 + 1, &self.partitions[i]));
            i = i + 1;
        }
        r
    }

    /// The partition entries, ready to be changed, and their index. The index always starts at 1.
    pub fn iter_mut(&mut self) -> (r: Vec<(u32, &mut GPTPartitionEntry)>)
        requires
            old(self)@.partitions.len() <= u32::MAX,
        ensures
            r@.len() == old(self)@.partitions.len(),
            forall|i: int|
                0 <= i < r@.len() ==> (#[trigger] r@[i]).0 == i + 1 && (*r@[i].1)@
                    == old(self)@.partitions[i] && final(self)@.partitions[i]
                    == (*final(r@[i].1))@,
            final(self)@ == (TableModel {
                partitions: final(self)@.partitions,
                ..old(self)@
            }),
            final(self)@.partitions.len() == old(self)@.partitions.len(),
    {
        number_entries(self.partitions.as_mut_slice())
    }
}

/// Whether an entry comes before another one in a sorted table.
fn goes_before(a: &GPTPartitionEntry, b: &GPTPartitionEntry) -> (r: bool)
    ensures
        r == entry_order()(a@, b@),
{
    a.is_used() && (b.is_unused() || a.starting_lba < b.starting_lba)
}

/// References to some entries, with their index. The index starts at 1.
fn number_entries<'a>(s: &'a mut [GPTPartitionEntry]) -> (out: Vec<
    (u32, &'a mut GPTPartitionEntry),
>)
    requires
        old(s)@.len() <= u32::MAX,
    ensures
        out@.len() == old(s)@.len(),
        final(s)@.len() == old(s)@.len(),
        forall|k: int|
            0 <= k < out@.len() ==> (#[trigger] out@[k]).0 == k + 1 && *out@[k].1 == old(s)@[k]
                && final(s)@[k] == *final(out@[k].1),
{
    let ghost all = s@;
    let mut out: Vec<(u32, &'a mut GPTPartitionEntry)> = Vec::new();
    let mut rest = s;
    let mut i: u32 = 0;
    while rest.len() > 0
        invariant
            all == old(s)@,
            all.len() <= u32::MAX,
            i + rest@.len() == all.len(),
            out@.len() == i,
            rest@ == all.skip(i as int),
            final(s)@.len() == i + final(rest)@.len(),
            forall|k: int|
                i <= k < final(s)@.len() ==> #[trigger] final(s)@[k] == final(rest)@[k - i],
            forall|k: int|
                0 <= k < i ==> (#[trigger] out@[k]).0 == k + 1 && *out@[k].1 == all[k]
                    && final(s)@[k] == *final(out@[k].1),
        decreases rest@.len(),
    {
        let (first, others) = rest.split_at_mut(1);
        i = i + 1;
        out.push((i, &mut first[0]));
        rest = others;
    }
    out
}

impl core::ops::Index<u32> for GPT {
    type Output = GPTPartitionEntry;

    fn index(&self, i: u32) -> (r: &GPTPartitionEntry)
        ensures
            r@ == self@.partitions[i - 1],
    {
        &self.partitions[i as usize - 1]
    }
}

impl vstd::std_specs::core::IndexSpecImpl<u32> for GPT {
    open spec fn index_req(&self, i: &u32) -> bool {
        1 <= *i <= self@.partitions.len()
    }
}

impl core::ops::IndexMut<u32> for GPT {
    fn index_mut(&mut self, i: u32) -> (r: &mut GPTPartitionEntry)
        requires
            1 <= i <= old(self)@.partitions.len(),
        ensures
            (*r)@ == old(self)@.partitions[i - 1],
            final(self)@ == (TableModel {
                partitions: old(self)@.partitions.update(i - 1, (*final(r))@),
                ..old(self)@
            }),
    {
        &mut self.partitions[i as usize - 1]
    }
}

} // verus!
