//! What the operations on a table mean, in terms of the fields of its header and of its entries.

use vstd::prelude::*;
use crate::header;
use crate::header::HeaderModel;
use crate::order;
use crate::partition;
use crate::partition::{EntryModel, GPTPartitionEntry};
use crate::table;
use crate::table::GPT;

verus! {

/// Whether the type GUID of an entry has a byte that is not zero.
pub open spec fn is_taken(e: EntryModel) -> bool {
    exists|i: int| 0 <= i < 16 && #[trigger] e.partition_type_guid[i] != 0
}

/// Whether the GUIDs of some entries have 16 bytes each, as those of all entries in memory have.
pub open spec fn have_guids(entries: Seq<EntryModel>) -> bool {
    forall|i: int|
        0 <= i < entries.len() ==> (#[trigger] entries[i]).partition_type_guid.len() == 16
            && entries[i].unique_parition_guid.len() == 16
}

/// An entry is used just where its type GUID has a byte that is not zero.
pub proof fn law_used(e: EntryModel)
    requires
        e.partition_type_guid.len() == 16,
    ensures
        partition::is_used_entry(e) <==> is_taken(e),
{
    let nil = partition::nil_guid();
    if !is_taken(e) {
        assert(e.partition_type_guid =~= nil);
    } else {
        let i = choose|i: int| 0 <= i < 16 && #[trigger] e.partition_type_guid[i] != 0;
        assert(nil[i] == 0);
    }
}

/// The empty entry has nothing but zeros, and no name.
pub proof fn law_empty_entry()
    ensures
        ({
            let e = partition::empty_entry();
            &&& e.partition_type_guid.len() == 16
            &&& e.unique_parition_guid.len() == 16
            &&& forall|i: int| 0 <= i < 16 ==> #[trigger] e.partition_type_guid[i] == 0
            &&& forall|i: int| 0 <= i < 16 ==> #[trigger] e.unique_parition_guid[i] == 0
            &&& e.starting_lba == 0
            &&& e.ending_lba == 0
            &&& e.attribute_bits == 0
            &&& e.partition_name.len() == 0
            &&& !is_taken(e)
        }),
{
    law_used(partition::empty_entry());
}

/// What the fields of a table in memory say is what it says.
pub(crate) proof fn law_table_view(t: GPT)
    ensures
        t@.sector_size == t.sector_size,
        t@.header == t.header@,
        t@.align == t.align,
        t@.partitions.len() == t.partitions@.len(),
        forall|i: int|
            0 <= i < t.partitions@.len() ==> #[trigger] t@.partitions[i] == t.partitions@[i]@,
        have_guids(t@.partitions),
{
    assert forall|i: int| 0 <= i < t@.partitions.len() implies (
    #[trigger] t@.partitions[i]).partition_type_guid.len() == 16
        && t@.partitions[i].unique_parition_guid.len() == 16 by {
        assert(t@.partitions[i] == t.partitions@[i]@);
    }
}

/// What the entries of a slice in memory say is what each of them says.
pub proof fn lemma_entries_in_memory(s: Seq<GPTPartitionEntry>)
    ensures
        partition::entry_models(s).len() == s.len(),
        forall|i: int| 0 <= i < s.len() ==> #[trigger] partition::entry_models(s)[i] == s[i]@,
        have_guids(partition::entry_models(s)),
{
    assert forall|i: int| 0 <= i < s.len() implies (
    #[trigger] partition::entry_models(s)[i]).partition_type_guid.len() == 16
        && partition::entry_models(s)[i].unique_parition_guid.len() == 16 by {
        assert(partition::entry_models(s)[i] == s[i]@);
    }
}

/// No two partitions have the same GUID just where the GUIDs of any two differ in a byte.
pub proof fn law_distinct_guids(entries: Seq<EntryModel>)
    requires
        have_guids(entries),
    ensures
        table::distinct_guids(entries) <==> forall|i: int, j: int|
            0 <= i < j < entries.len() && is_taken(#[trigger] entries[i]) && is_taken(
                #[trigger] entries[j],
            ) ==> differ(entries[i].unique_parition_guid, entries[j].unique_parition_guid),
{
    assert forall|i: int, j: int| 0 <= i < j < entries.len() implies (
    #[trigger] entries[i].unique_parition_guid != #[trigger] entries[j].unique_parition_guid)
        == differ(entries[i].unique_parition_guid, entries[j].unique_parition_guid) by {
        let a = entries[i].unique_parition_guid;
        let b = entries[j].unique_parition_guid;
        if !differ(a, b) {
            assert(a =~= b);
        }
    }
    assert forall|i: int| 0 <= i < entries.len() implies partition::is_used_entry(
        #[trigger] entries[i],
    ) == is_taken(entries[i]) by {
        law_used(entries[i]);
    }
    if table::distinct_guids(entries) {
        assert forall|i: int, j: int|
            0 <= i < j < entries.len() && is_taken(#[trigger] entries[i]) && is_taken(
                #[trigger] entries[j],
            ) implies differ(entries[i].unique_parition_guid, entries[j].unique_parition_guid) by {
            assert(entries[i].unique_parition_guid != entries[j].unique_parition_guid);
        }
    } else {
        let (i, j) = choose|i: int, j: int|
            0 <= i < j < entries.len() && partition::is_used_entry(entries[i])
                && partition::is_used_entry(entries[j]) && (
            #[trigger] entries[i]).unique_parition_guid == (
            #[trigger] entries[j]).unique_parition_guid;
        assert(is_taken(entries[i]) && is_taken(entries[j]));
    }
}

/// Whether two GUIDs differ in a byte.
pub open spec fn differ(a: Seq<u8>, b: Seq<u8>) -> bool {
    exists|k: int| 0 <= k < 16 && #[trigger] a[k] != b[k]
}

/// Whether none of some entries is taken.
pub open spec fn none_taken(entries: Seq<EntryModel>) -> bool {
    forall|i: int| 0 <= i < entries.len() ==> !is_taken(#[trigger] entries[i])
}

/// Whether just one of some entries is taken, and starts at the given sector.
pub open spec fn one_taken_at(entries: Seq<EntryModel>, lba: u64) -> bool {
    exists|i: int|
        {
            &&& 0 <= i < entries.len()
            &&& is_taken(#[trigger] entries[i])
            &&& entries[i].starting_lba == lba
            &&& forall|j: int|
                0 <= j < entries.len() && j != i ==> !is_taken(#[trigger] entries[j])
        }
}

/// Whether one of some entries is taken and starts at the given sector or behind it.
pub open spec fn reaches(entries: Seq<EntryModel>, lba: int) -> bool {
    exists|i: int|
        0 <= i < entries.len() && is_taken(#[trigger] entries[i]) && entries[i].starting_lba >= lba
}

/// Whether all of some entries that are taken start at a multiple of `d`.
pub open spec fn all_start_at_multiples(entries: Seq<EntryModel>, d: int) -> bool {
    forall|i: int|
        0 <= i < entries.len() && is_taken(#[trigger] entries[i])
            ==> entries[i].starting_lba as int % d == 0
}

proof fn lemma_lbas(entries: Seq<EntryModel>)
    requires
        have_guids(entries),
    ensures
        forall|i: int|
            0 <= i < entries.len() && is_taken(#[trigger] entries[i]) ==> table::used_lbas(
                entries,
            ).contains(entries[i].starting_lba),
        forall|k: int|
            0 <= k < table::used_lbas(entries).len() ==> starts_one(
                entries,
                #[trigger] table::used_lbas(entries)[k],
            ),
        none_taken(entries) <==> table::used_lbas(entries).len() == 0,
    decreases entries.len(),
{
    let lbas = table::used_lbas(entries);
    if entries.len() > 0 {
        let front = entries.drop_last();
        let fl = table::used_lbas(front);
        let n = front.len() as int;
        assert forall|i: int| 0 <= i < n implies (#[trigger] front[i]).partition_type_guid.len()
            == 16 && front[i].unique_parition_guid.len() == 16 by {
            assert(entries[i].partition_type_guid.len() == 16);
        }
        lemma_lbas(front);
        law_used(entries[n]);
        assert forall|i: int|
            0 <= i < entries.len() && is_taken(#[trigger] entries[i]) implies lbas.contains(
            entries[i].starting_lba,
        ) by {
            if i < n {
                assert(is_taken(front[i]));
                assert(fl.contains(front[i].starting_lba));
                let k = choose|k: int| 0 <= k < fl.len() && fl[k] == front[i].starting_lba;
                assert(lbas[k] == entries[i].starting_lba);
            } else {
                assert(lbas[lbas.len() - 1] == entries[i].starting_lba);
            }
        }
        assert forall|k: int| 0 <= k < lbas.len() implies starts_one(
            entries,
            #[trigger] lbas[k],
        ) by {
            if k < fl.len() {
                assert(lbas[k] == fl[k]);
                assert(starts_one(front, fl[k]));
                let i = choose|i: int|
                    0 <= i < n && is_taken(#[trigger] front[i]) && front[i].starting_lba == fl[k];
                assert(is_taken(entries[i]) && entries[i].starting_lba == lbas[k]);
            } else {
                assert(is_taken(entries[n]) && entries[n].starting_lba == lbas[k]);
            }
        }
        if none_taken(entries) {
            assert forall|i: int| 0 <= i < n implies !is_taken(#[trigger] front[i]) by {
                assert(!is_taken(entries[i]));
            }
            assert(!is_taken(entries[n]));
        }
        if lbas.len() == 0 {
            assert forall|i: int| 0 <= i < entries.len() implies !is_taken(
                #[trigger] entries[i],
            ) by {
                if is_taken(entries[i]) {
                    assert(lbas.contains(entries[i].starting_lba));
                }
            }
        }
    }
}

/// Whether one of some entries is taken and starts at the given sector.
spec fn starts_one(entries: Seq<EntryModel>, lba: u64) -> bool {
    exists|i: int|
        0 <= i < entries.len() && is_taken(#[trigger] entries[i]) && entries[i].starting_lba == lba
}

proof fn lemma_two_lbas(entries: Seq<EntryModel>, i: int, j: int)
    requires
        have_guids(entries),
        0 <= i < j < entries.len(),
        is_taken(entries[i]),
        is_taken(entries[j]),
    ensures
        table::used_lbas(entries).len() >= 2,
    decreases entries.len(),
{
    let front = entries.drop_last();
    let n = front.len() as int;
    assert forall|k: int| 0 <= k < n implies (#[trigger] front[k]).partition_type_guid.len() == 16
        && front[k].unique_parition_guid.len() == 16 by {
        assert(entries[k].partition_type_guid.len() == 16);
    }
    law_used(entries[n]);
    if j == n {
        lemma_lbas(front);
        assert(is_taken(front[i]));
    } else {
        lemma_two_lbas(front, i, j);
    }
}

proof fn lemma_one_lba(entries: Seq<EntryModel>, v: u64)
    requires
        have_guids(entries),
    ensures
        one_taken_at(entries, v) <==> table::used_lbas(entries) =~= seq![v],
{
    let lbas = table::used_lbas(entries);
    lemma_lbas(entries);
    if one_taken_at(entries, v) {
        let i = choose|i: int|
            {
                &&& 0 <= i < entries.len()
                &&& is_taken(#[trigger] entries[i])
                &&& entries[i].starting_lba == v
                &&& forall|j: int|
                    0 <= j < entries.len() && j != i ==> !is_taken(#[trigger] entries[j])
            };
        assert(lbas.contains(v));
        lemma_at_most_one_lba(entries, i);
        assert(lbas =~= seq![v]);
    }
    if lbas =~= seq![v] {
        assert(starts_one(entries, lbas[0]));
        let i = choose|i: int|
            0 <= i < entries.len() && is_taken(#[trigger] entries[i]) && entries[i].starting_lba
                == lbas[0];
        assert(entries[i].starting_lba == v);
        assert forall|j: int| 0 <= j < entries.len() && j != i implies !is_taken(
            #[trigger] entries[j],
        ) by {
            if is_taken(entries[j]) {
                if i < j {
                    lemma_two_lbas(entries, i, j);
                } else {
                    lemma_two_lbas(entries, j, i);
                }
            }
        }
    }
}

proof fn lemma_at_most_one_lba(entries: Seq<EntryModel>, i: int)
    requires
        have_guids(entries),
        forall|j: int| 0 <= j < entries.len() && j != i ==> !is_taken(#[trigger] entries[j]),
    ensures
        table::used_lbas(entries).len() <= 1,
    decreases entries.len(),
{
    if entries.len() > 0 {
        let front = entries.drop_last();
        let n = front.len() as int;
        assert forall|k: int| 0 <= k < n implies (#[trigger] front[k]).partition_type_guid.len()
            == 16 && front[k].unique_parition_guid.len() == 16 by {
            assert(entries[k].partition_type_guid.len() == 16);
        }
        assert forall|j: int| 0 <= j < n && j != i implies !is_taken(#[trigger] front[j]) by {
            assert(!is_taken(entries[j]));
        }
        law_used(entries[n]);
        if i == n {
            lemma_lbas(front);
            assert(none_taken(front));
        } else {
            assert(!is_taken(entries[n]));
            lemma_at_most_one_lba(front, i);
        }
    }
}

proof fn lemma_largest(lbas: Seq<u64>)
    ensures
        forall|k: int| 0 <= k < lbas.len() ==> #[trigger] lbas[k] <= table::largest_lba(lbas),
        lbas.len() > 0 ==> lbas.contains(table::largest_lba(lbas)),
        lbas.len() == 0 ==> table::largest_lba(lbas) == 0,
    decreases lbas.len(),
{
    if lbas.len() > 0 {
        let front = lbas.drop_last();
        let n = front.len() as int;
        lemma_largest(front);
        assert forall|k: int| 0 <= k < lbas.len() implies #[trigger] lbas[k] <= table::largest_lba(
            lbas,
        ) by {
            if k < n {
                assert(front[k] == lbas[k]);
            }
        }
        if table::largest_lba(front) < lbas.last() {
            assert(lbas[n] == table::largest_lba(lbas));
        } else if n > 0 {
            let k = choose|k: int| 0 <= k < n && front[k] == table::largest_lba(front);
            assert(lbas[k] == table::largest_lba(lbas));
        } else {
            assert(lbas[n] == table::largest_lba(lbas));
        }
    }
}

/// The partitions of a table tell its alignment unless they all start at sector zero. A single one
/// at the first usable sector does in any case.
pub proof fn law_has_alignment(first_usable_lba: u64, entries: Seq<EntryModel>)
    requires
        have_guids(entries),
    ensures
        table::has_alignment(first_usable_lba, entries) <==> none_taken(entries) || one_taken_at(
            entries,
            first_usable_lba,
        ) || reaches(entries, 1),
{
    let lbas = table::used_lbas(entries);
    lemma_lbas(entries);
    lemma_one_lba(entries, first_usable_lba);
    lemma_reaches(entries, 1);
}

proof fn lemma_reaches(entries: Seq<EntryModel>, d: int)
    requires
        have_guids(entries),
        d > 0,
    ensures
        reaches(entries, d) <==> table::largest_lba(table::used_lbas(entries)) >= d,
{
    let lbas = table::used_lbas(entries);
    lemma_lbas(entries);
    lemma_largest(lbas);
    if reaches(entries, d) {
        let i = choose|i: int|
            0 <= i < entries.len() && is_taken(#[trigger] entries[i]) && entries[i].starting_lba
                >= d;
        assert(lbas.contains(entries[i].starting_lba));
        let k = choose|k: int| 0 <= k < lbas.len() && lbas[k] == entries[i].starting_lba;
        assert(lbas[k] <= table::largest_lba(lbas));
    }
    if table::largest_lba(lbas) >= d {
        let k = choose|k: int| 0 <= k < lbas.len() && lbas[k] == table::largest_lba(lbas);
        assert(starts_one(entries, lbas[k]));
    }
}

proof fn lemma_multiples(entries: Seq<EntryModel>, d: int)
    requires
        have_guids(entries),
    ensures
        all_start_at_multiples(entries, d) <==> table::divides_all(d, table::used_lbas(entries)),
{
    let lbas = table::used_lbas(entries);
    lemma_lbas(entries);
    if table::divides_all(d, lbas) {
        assert forall|i: int| 0 <= i < entries.len() && is_taken(#[trigger] entries[i]) implies
            entries[i].starting_lba as int % d == 0 by {
            assert(lbas.contains(entries[i].starting_lba));
            let k = choose|k: int| 0 <= k < lbas.len() && lbas[k] == entries[i].starting_lba;
            assert(lbas[k] as int % d == 0);
        }
    }
    if all_start_at_multiples(entries, d) {
        assert forall|k: int| 0 <= k < lbas.len() implies (#[trigger] lbas[k] as int) % d == 0 by {
            assert(starts_one(entries, lbas[k]));
            let i = choose|i: int|
                0 <= i < entries.len() && is_taken(#[trigger] entries[i]) && entries[i].starting_lba
                    == lbas[k];
            assert(entries[i].starting_lba as int % d == 0);
        }
    }
}

/// The alignment of a table without partitions is 2048 sectors, and that of a table with one
/// partition, which starts at the first usable sector, is 1. Any other table has the largest
/// number up to 16384, and up to where the last of its partitions starts, of which the start of
/// every partition is a multiple.
pub proof fn law_alignment(first_usable_lba: u64, entries: Seq<EntryModel>)
    requires
        have_guids(entries),
        table::has_alignment(first_usable_lba, entries),
    ensures
        ({
            let a = table::alignment(first_usable_lba, entries) as int;
            &&& none_taken(entries) ==> a == 2048
            &&& one_taken_at(entries, first_usable_lba) ==> a == 1
            &&& !none_taken(entries) ==> 1 <= a <= 16384 && all_start_at_multiples(entries, a)
            &&& !none_taken(entries) && !one_taken_at(entries, first_usable_lba) ==> {
                &&& reaches(entries, a)
                &&& forall|d: int|
                    a < d <= 16384 && reaches(entries, d) ==> !#[trigger] all_start_at_multiples(
                        entries,
                        d,
                    )
            }
        }),
{
    let lbas = table::used_lbas(entries);
    let a = table::alignment(first_usable_lba, entries);
    lemma_lbas(entries);
    lemma_one_lba(entries, first_usable_lba);
    if one_taken_at(entries, first_usable_lba) {
        assert(!none_taken(entries));
        assert(a == 1);
    } else if !none_taken(entries) {
        assert(lbas != seq![first_usable_lba]);
        table::law_alignment_is_largest_divisor(first_usable_lba, entries);
        lemma_multiples(entries, a as int);
        lemma_alignment_reaches(first_usable_lba, entries);
        assert forall|d: int| a < d <= 16384 && reaches(entries, d) implies
            !#[trigger] all_start_at_multiples(entries, d) by {
            lemma_reaches(entries, d);
            lemma_multiples(entries, d);
        }
    }
}

proof fn lemma_divisor_bound(lbas: Seq<u64>, n: nat)
    ensures
        table::largest_divisor(lbas, n) <= n,
    decreases n,
{
    if !(n <= 1 || table::divides_all(n as int, lbas)) {
        lemma_divisor_bound(lbas, (n - 1) as nat);
    }
}

proof fn lemma_alignment_reaches(first_usable_lba: u64, entries: Seq<EntryModel>)
    requires
        have_guids(entries),
        table::has_alignment(first_usable_lba, entries),
        table::used_lbas(entries).len() > 0,
        table::used_lbas(entries) != seq![first_usable_lba],
    ensures
        reaches(entries, table::alignment(first_usable_lba, entries) as int),
{
    let lbas = table::used_lbas(entries);
    table::law_alignment_is_largest_divisor(first_usable_lba, entries);
    if table::largest_lba(lbas) < table::MAX_ALIGN {
        lemma_divisor_bound(lbas, table::largest_lba(lbas) as nat);
    }
    lemma_reaches(entries, table::alignment(first_usable_lba, entries) as int);
}

proof fn lemma_filter_same<A>(s: Seq<A>, p: spec_fn(A) -> bool, q: spec_fn(A) -> bool)
    requires
        forall|i: int| 0 <= i < s.len() ==> p(#[trigger] s[i]) == q(s[i]),
    ensures
        s.filter(p) == s.filter(q),
    decreases s.len(),
{
    reveal(Seq::filter);
    if s.len() > 0 {
        let front = s.drop_last();
        assert forall|i: int| 0 <= i < front.len() implies p(#[trigger] front[i]) == q(
            front[i],
        ) by {
            assert(p(s[i]) == q(s[i]));
        }
        lemma_filter_same(front, p, q);
        assert(p(s[s.len() - 1]) == q(s[s.len() - 1]));
    }
}

proof fn lemma_sorted_guids(entries: Seq<EntryModel>)
    requires
        have_guids(entries),
    ensures
        have_guids(order::sort_by(entries, table::entry_order())),
{
    broadcast use vstd::seq_lib::group_to_multiset_ensures;

    let s = order::sort_by(entries, table::entry_order());
    table::law_sort(entries);
    assert forall|i: int| 0 <= i < s.len() implies (#[trigger] s[i]).partition_type_guid.len() == 16
        && s[i].unique_parition_guid.len() == 16 by {
        assert(s.contains(s[i]) && s.to_multiset().count(s[i]) > 0);
        assert(entries.contains(s[i]));
        let k = choose|k: int| 0 <= k < entries.len() && entries[k] == s[i];
        assert(entries[k].partition_type_guid.len() == 16);
    }
}

/// Whether an entry is taken and starts at the given sector.
pub open spec fn taken_at(lba: u64) -> spec_fn(EntryModel) -> bool {
    |e: EntryModel| is_taken(e) && e.starting_lba == lba
}

/// Whether an entry is not taken.
pub open spec fn not_taken() -> spec_fn(EntryModel) -> bool {
    |e: EntryModel| !is_taken(e)
}

/// After sorting, all entries in front of one that is taken are taken, and none of them starts
/// behind it. The entries are the same ones as before, as often as before. Those that start at the
/// same sector stay in their order, and so do those that are not taken.
pub proof fn law_sorted_by_start(entries: Seq<EntryModel>)
    requires
        have_guids(entries),
    ensures
        ({
            let s = order::sort_by(entries, table::entry_order());
            &&& s.len() == entries.len()
            &&& s.to_multiset() == entries.to_multiset()
            &&& forall|i: int, j: int|
                0 <= i < j < s.len() && is_taken(#[trigger] s[j]) ==> is_taken(#[trigger] s[i])
                    && s[i].starting_lba <= s[j].starting_lba
            &&& forall|lba: u64|
                s.filter(#[trigger] taken_at(lba)) == entries.filter(taken_at(lba))
            &&& s.filter(not_taken()) == entries.filter(not_taken())
        }),
{
    let before = table::entry_order();
    let s = order::sort_by(entries, before);
    table::law_sort(entries);
    table::lemma_entry_order();
    lemma_sorted_guids(entries);
    assert forall|i: int| 0 <= i < s.len() implies partition::is_used_entry(#[trigger] s[i])
        == is_taken(s[i]) by {
        law_used(s[i]);
    }
    assert forall|i: int| 0 <= i < entries.len() implies partition::is_used_entry(
        #[trigger] entries[i],
    ) == is_taken(entries[i]) by {
        law_used(entries[i]);
    }
    assert forall|i: int, j: int| 0 <= i < j < s.len() && is_taken(#[trigger] s[j]) implies
        is_taken(#[trigger] s[i]) && s[i].starting_lba <= s[j].starting_lba by {
        assert(!before(s[j], s[i]));
    }
    assert forall|lba: u64| s.filter(#[trigger] taken_at(lba)) == entries.filter(taken_at(lba)) by {
        let k = EntryModel {
            partition_type_guid: seq![1u8],
            starting_lba: lba,
            ..partition::empty_entry()
        };
        assert(partition::is_used_entry(k)) by {
            assert(k.partition_type_guid.len() != partition::nil_guid().len());
        }
        let p = taken_at(lba);
        let q = |e: EntryModel| order::ties(e, k, before);
        order::lemma_sort_by_is_stable(entries, before, k);
        lemma_filter_same(s, p, q);
        lemma_filter_same(entries, p, q);
    }
    let k = partition::empty_entry();
    let p = not_taken();
    let q = |e: EntryModel| order::ties(e, k, before);
    assert(!partition::is_used_entry(k));
    order::lemma_sort_by_is_stable(entries, before, k);
    lemma_filter_same(s, p, q);
    lemma_filter_same(entries, p, q);
}

/// A header is fitted to a disk as follows, where `array` is the least number of sectors that have
/// room for the partition array. One header is in sector 1, the other one in the last sector. The
/// last usable sector is the one before the array at the end of the disk. The first usable one
/// comes after the array of a header in sector 1, and after one at sector 2 for the header at the
/// end. Nothing else changes.
pub proof fn law_update(h: HeaderModel, len: u64, sector_size: u64, array: int)
    requires
        header::can_update(h, len, sector_size),
        (array - 1) * sector_size < h.number_of_partition_entries * h.size_of_partition_entry
            <= array * sector_size,
    ensures
        ({
            let r = header::updated_header(h, len, sector_size);
            let sectors = (len / sector_size) as int;
            &&& h.primary_lba == 1 ==> r.primary_lba == 1 && r.backup_lba == sectors - 1
                && r.first_usable_lba == h.partition_entry_lba + array
            &&& h.primary_lba != 1 ==> r.primary_lba == sectors - 1 && r.backup_lba == 1
                && r.first_usable_lba == 2 + array
            &&& r.last_usable_lba == sectors - 2 - array
            &&& r.signature == h.signature
            &&& r.revision == h.revision
            &&& r.header_size == h.header_size
            &&& r.crc32_checksum == h.crc32_checksum
            &&& r.reserved == h.reserved
            &&& r.disk_guid == h.disk_guid
            &&& r.partition_entry_lba == h.partition_entry_lba
            &&& r.number_of_partition_entries == h.number_of_partition_entries
            &&& r.size_of_partition_entry == h.size_of_partition_entry
            &&& r.partition_entry_array_crc32 == h.partition_entry_array_crc32
        }),
{
    header::lemma_array_sectors(h, sector_size);
    lemma_array_is(h, sector_size, array);
}

/// A header can be fitted to a disk just where it says of an array that it is not empty, and the
/// disk has room for that array, the two headers, and, for a header in sector 1, a number for the
/// sector after its array.
pub proof fn law_can_update(h: HeaderModel, len: u64, sector_size: u64, array: int)
    requires
        (array - 1) * sector_size < h.number_of_partition_entries * h.size_of_partition_entry
            <= array * sector_size,
    ensures
        header::can_update(h, len, sector_size) <==> {
            &&& sector_size > 0
            &&& h.number_of_partition_entries > 0
            &&& h.size_of_partition_entry > 0
            &&& array + 2 <= len / sector_size
            &&& h.primary_lba == 1 ==> h.partition_entry_lba + array <= u64::MAX
        },
{
    if sector_size > 0 && h.number_of_partition_entries > 0 && h.size_of_partition_entry > 0 {
        lemma_array_is(h, sector_size, array);
    }
}

proof fn lemma_array_is(h: HeaderModel, sector_size: u64, array: int)
    requires
        sector_size > 0,
        h.number_of_partition_entries > 0,
        h.size_of_partition_entry > 0,
        (array - 1) * sector_size < h.number_of_partition_entries * h.size_of_partition_entry
            <= array * sector_size,
    ensures
        header::array_sectors(h, sector_size) == array,
{
    let size = h.number_of_partition_entries * h.size_of_partition_entry;
    let ss = sector_size as int;
    let q = (size - 1) / ss;
    vstd::arithmetic::div_mod::lemma_fundamental_div_mod(size - 1, ss);
    vstd::arithmetic::div_mod::lemma_mod_bound(size - 1, ss);
    assert(q == array - 1) by (nonlinear_arith)
        requires
            ss > 0,
            size - 1 == ss * q + (size - 1) % ss,
            0 <= (size - 1) % ss < ss,
            (array - 1) * ss < size <= array * ss,
    ;
}

/// What the header of a new table says before it is fitted to a disk.
pub proof fn law_blank_header(disk_guid: Seq<u8>)
    ensures
        ({
            let h = header::blank_header(disk_guid);
            &&& h.signature =~= seq![0x45u8, 0x46u8, 0x49u8, 0x20u8, 0x50u8, 0x41u8, 0x52u8, 0x54u8]
            &&& h.revision =~= seq![0u8, 0u8, 1u8, 0u8]
            &&& h.header_size == 92
            &&& h.crc32_checksum == 0
            &&& h.reserved =~= seq![0u8, 0u8, 0u8, 0u8]
            &&& h.primary_lba == 1
            &&& h.backup_lba == 0
            &&& h.first_usable_lba == 0
            &&& h.last_usable_lba == 0
            &&& h.disk_guid == disk_guid
            &&& h.partition_entry_lba == 2
            &&& h.number_of_partition_entries == 128
            &&& h.size_of_partition_entry == 128
            &&& h.partition_entry_array_crc32 == 0
        }),
{
}

} // verus!
