//! Partitions that lie side by side on a disk, and what the search for free space finds between
//! them.

use vstd::prelude::*;
use crate::free;
use crate::order;
use crate::partition;
use crate::partition::EntryModel;
use crate::table;
use crate::table::TableModel;

verus! {

/// Whether two partitions have no sector in common.
pub open spec fn are_apart(a: EntryModel, b: EntryModel) -> bool {
    a.ending_lba < b.starting_lba || b.ending_lba < a.starting_lba
}

/// Whether a partition has a sector at least, and all its sectors are usable.
pub open spec fn is_usable(t: TableModel, e: EntryModel) -> bool {
    t.header.first_usable_lba <= e.starting_lba <= e.ending_lba <= t.header.last_usable_lba
}

/// Whether the partitions of a table lie side by side within its usable sectors.
pub open spec fn is_laid_out(t: TableModel) -> bool {
    &&& 0 < t.header.first_usable_lba <= t.header.last_usable_lba + 1
    &&& t.header.last_usable_lba < u64::MAX
    &&& forall|i: int|
        0 <= i < t.partitions.len() && partition::is_used_entry(#[trigger] t.partitions[i])
            ==> is_usable(t, t.partitions[i])
    &&& forall|i: int, j: int|
        0 <= i < j < t.partitions.len() && partition::is_used_entry(t.partitions[i])
            && partition::is_used_entry(t.partitions[j]) ==> are_apart(
            #[trigger] t.partitions[i],
            #[trigger] t.partitions[j],
        )
}

/// Whether a sector is usable and belongs to no partition.
pub open spec fn is_free_sector(t: TableModel, x: int) -> bool {
    &&& t.header.first_usable_lba <= x <= t.header.last_usable_lba
    &&& forall|i: int|
        0 <= i < t.partitions.len() && partition::is_used_entry(#[trigger] t.partitions[i]) ==> !(
        t.partitions[i].starting_lba <= x <= t.partitions[i].ending_lba)
}

/// Whether `size` sectors, from `start` on, are all free.
pub open spec fn is_free_run(t: TableModel, start: int, size: int) -> bool {
    forall|x: int| start <= x < start + size ==> #[trigger] is_free_sector(t, x)
}

/// The entries that are used, in order.
pub open spec fn used_entries(entries: Seq<EntryModel>) -> Seq<EntryModel>
    decreases entries.len(),
{
    if entries.len() == 0 {
        Seq::empty()
    } else {
        let front = used_entries(entries.drop_last());
        if partition::is_used_entry(entries.last()) {
            front.push(entries.last())
        } else {
            front
        }
    }
}

/// The first and the last LBA of each of some entries, in order.
spec fn edges(entries: Seq<EntryModel>) -> Seq<u64>
    decreases entries.len(),
{
    if entries.len() == 0 {
        Seq::empty()
    } else {
        edges(entries.drop_last()).push(entries.last().starting_lba).push(
            entries.last().ending_lba,
        )
    }
}

/// The order of partitions from the left to the right.
pub open spec fn starts_before() -> spec_fn(EntryModel, EntryModel) -> bool {
    |a: EntryModel, b: EntryModel| a.starting_lba < b.starting_lba
}

/// The partitions of a table from the left to the right.
pub open spec fn lanes(t: TableModel) -> Seq<EntryModel> {
    order::sort_by(used_entries(t.partitions), starts_before())
}

/// The last sector before gap number `k` of a table.
spec fn gap_low(t: TableModel, k: int) -> u64 {
    if k == 0 {
        (t.header.first_usable_lba - 1) as u64
    } else {
        lanes(t)[k - 1].ending_lba
    }
}

/// The first sector after gap number `k` of a table.
spec fn gap_high(t: TableModel, k: int) -> u64 {
    if k == lanes(t).len() {
        (t.header.last_usable_lba + 1) as u64
    } else {
        lanes(t)[k].starting_lba
    }
}

proof fn lemma_used_entries(entries: Seq<EntryModel>)
    ensures
        free::used_bounds(entries) == edges(used_entries(entries)),
        forall|i: int|
            0 <= i < used_entries(entries).len() ==> partition::is_used_entry(
                #[trigger] used_entries(entries)[i],
            ) && entries.contains(used_entries(entries)[i]),
        forall|i: int|
            0 <= i < entries.len() && partition::is_used_entry(#[trigger] entries[i])
                ==> used_entries(entries).contains(entries[i]),
    decreases entries.len(),
{
    if entries.len() > 0 {
        let front = entries.drop_last();
        let used = used_entries(front);
        let r = used_entries(entries);
        lemma_used_entries(front);
        if partition::is_used_entry(entries.last()) {
            assert(r.drop_last() =~= used);
        }
        assert forall|i: int| 0 <= i < r.len() implies partition::is_used_entry(#[trigger] r[i])
            && entries.contains(r[i]) by {
            if i < used.len() {
                assert(r[i] == used[i]);
                assert(front.contains(used[i]));
                let k = choose|k: int| 0 <= k < front.len() && front[k] == used[i];
                assert(entries[k] == r[i]);
            } else {
                assert(entries[entries.len() - 1] == r[i]);
            }
        }
        assert forall|i: int|
            0 <= i < entries.len() && partition::is_used_entry(
                #[trigger] entries[i],
            ) implies r.contains(entries[i]) by {
            if i < front.len() {
                assert(front[i] == entries[i]);
                assert(used.contains(front[i]));
                let k = choose|k: int| 0 <= k < used.len() && used[k] == entries[i];
                assert(r[k] == entries[i]);
            } else {
                assert(r[r.len() - 1] == entries[i]);
            }
        }
    }
}

proof fn lemma_used_entries_apart(entries: Seq<EntryModel>)
    requires
        forall|i: int, j: int|
            0 <= i < j < entries.len() && partition::is_used_entry(entries[i])
                && partition::is_used_entry(entries[j]) ==> are_apart(
                #[trigger] entries[i],
                #[trigger] entries[j],
            ),
    ensures
        order::all_pairs(used_entries(entries), apart()),
    decreases entries.len(),
{
    if entries.len() > 0 {
        let front = entries.drop_last();
        let used = used_entries(front);
        let r = used_entries(entries);
        lemma_used_entries_apart(front);
        lemma_used_entries(front);
        let rel = apart();
        assert forall|i: int, j: int| 0 <= i < j < r.len() implies #[trigger] rel(r[i], r[j]) by {
            if j == used.len() {
                assert(front.contains(used[i]));
                let k = choose|k: int| 0 <= k < front.len() && front[k] == used[i];
                assert(entries[k] == r[i]);
                assert(entries[entries.len() - 1] == r[j]);
            } else {
                assert(rel(used[i], used[j]));
            }
        }
    }
}

/// That two partitions have no sector in common, as a relation.
spec fn apart() -> spec_fn(EntryModel, EntryModel) -> bool {
    |a: EntryModel, b: EntryModel| are_apart(a, b)
}

proof fn lemma_edges(s: Seq<EntryModel>)
    ensures
        edges(s).len() == 2 * s.len(),
        forall|i: int|
            0 <= i < s.len() ==> edges(s)[2 * i] == (#[trigger] s[i]).starting_lba && edges(s)[2 * i
                + 1] == s[i].ending_lba,
    decreases s.len(),
{
    if s.len() > 0 {
        let front = s.drop_last();
        lemma_edges(front);
        assert forall|i: int| 0 <= i < s.len() implies edges(s)[2 * i] == (
        #[trigger] s[i]).starting_lba && edges(s)[2 * i + 1] == s[i].ending_lba by {
            if i < front.len() {
                assert(front[i] == s[i]);
            }
        }
    }
}

proof fn lemma_edges_of_insert(
    s: Seq<EntryModel>,
    x: EntryModel,
    before: spec_fn(EntryModel, EntryModel) -> bool,
)
    ensures
        edges(order::insert_by(s, x, before)).to_multiset() == edges(s).to_multiset().insert(
            x.starting_lba,
        ).insert(x.ending_lba),
    decreases s.len(),
{
    broadcast use vstd::multiset::group_multiset_axioms;
    broadcast use vstd::seq_lib::group_to_multiset_ensures;

    if s.len() == 0 || !before(x, s.last()) {
        assert(s.push(x).drop_last() =~= s);
        assert(edges(s.push(x)) == edges(s).push(x.starting_lba).push(x.ending_lba));
    } else {
        let front = s.drop_last();
        let last = s.last();
        let inner = order::insert_by(front, x, before);
        lemma_edges_of_insert(front, x, before);
        assert(inner.push(last).drop_last() =~= inner);
        assert(edges(inner.push(last)) == edges(inner).push(last.starting_lba).push(
            last.ending_lba,
        ));
        assert(edges(order::insert_by(s, x, before)).to_multiset() =~= edges(
            s,
        ).to_multiset().insert(x.starting_lba).insert(x.ending_lba));
    }
}

proof fn lemma_edges_of_sort(s: Seq<EntryModel>, before: spec_fn(EntryModel, EntryModel) -> bool)
    ensures
        edges(order::sort_by(s, before)).to_multiset() == edges(s).to_multiset(),
    decreases s.len(),
{
    broadcast use vstd::multiset::group_multiset_axioms;
    broadcast use vstd::seq_lib::group_to_multiset_ensures;

    if s.len() > 0 {
        let front = s.drop_last();
        lemma_edges_of_sort(front, before);
        lemma_edges_of_insert(order::sort_by(front, before), s.last(), before);
    }
}

proof fn lemma_start_order()
    ensures
        order::is_weak_order(starts_before()),
{
}

/// The partitions from the left to the right are those of the table, and each ends before the
/// next one starts.
proof fn lemma_lanes(t: TableModel)
    requires
        is_laid_out(t),
    ensures
        forall|i: int|
            0 <= i < lanes(t).len() ==> is_usable(t, #[trigger] lanes(t)[i])
                && partition::is_used_entry(lanes(t)[i]) && t.partitions.contains(lanes(t)[i]),
        forall|i: int, j: int|
            0 <= i < j < lanes(t).len() ==> (#[trigger] lanes(t)[i]).ending_lba < (
            #[trigger] lanes(t)[j]).starting_lba,
        forall|i: int|
            0 <= i < t.partitions.len() && partition::is_used_entry(#[trigger] t.partitions[i])
                ==> lanes(t).contains(t.partitions[i]),
{
    broadcast use vstd::seq_lib::group_to_multiset_ensures;

    let used = used_entries(t.partitions);
    let v = lanes(t);
    let before = starts_before();
    lemma_start_order();
    lemma_used_entries(t.partitions);
    lemma_used_entries_apart(t.partitions);
    order::lemma_sort_by(used, before);
    order::lemma_sort_by_pairs(used, before, apart());
    assert forall|i: int| 0 <= i < v.len() implies is_usable(t, #[trigger] v[i])
        && partition::is_used_entry(v[i]) && t.partitions.contains(v[i]) by {
        assert(v.contains(v[i]) && v.to_multiset().count(v[i]) > 0);
        assert(used.contains(v[i]));
        let k = choose|k: int| 0 <= k < used.len() && used[k] == v[i];
        assert(t.partitions.contains(used[k]));
    }
    assert forall|i: int, j: int| 0 <= i < j < v.len() implies (#[trigger] v[i]).ending_lba < (
    #[trigger] v[j]).starting_lba by {
        assert(!before(v[j], v[i]));
        assert(apart()(v[i], v[j]));
        assert(is_usable(t, v[i]) && is_usable(t, v[j]));
    }
    assert forall|i: int|
        0 <= i < t.partitions.len() && partition::is_used_entry(
            #[trigger] t.partitions[i],
        ) implies v.contains(t.partitions[i]) by {
        assert(used.contains(t.partitions[i]));
        assert(v.to_multiset().count(t.partitions[i]) > 0);
    }
}

/// The bounds of a table whose partitions lie side by side are those of the gaps between them.
proof fn lemma_sorted_bounds(t: TableModel)
    requires
        is_laid_out(t),
    ensures
        free::sorted_bounds(t).len() == 2 * lanes(t).len() + 2,
        forall|k: int|
            0 <= k <= lanes(t).len() ==> #[trigger] free::sorted_bounds(t)[2 * k] == gap_low(t, k)
                && free::sorted_bounds(t)[2 * k + 1] == gap_high(t, k),
        order::is_sorted(free::sorted_bounds(t), order::less_than()),
{
    broadcast use vstd::multiset::group_multiset_axioms;
    broadcast use vstd::seq_lib::group_to_multiset_ensures;

    let used = used_entries(t.partitions);
    let v = lanes(t);
    let n = v.len();
    let first = seq![(t.header.first_usable_lba - 1) as u64];
    let last = seq![(t.header.last_usable_lba + 1) as u64];
    let b = free::sorted_bounds(t);
    let ladder = first + edges(v) + last;
    lemma_lanes(t);
    lemma_edges(v);
    lemma_used_entries(t.partitions);
    lemma_edges_of_sort(used, starts_before());
    free::lemma_numbers_order();
    order::lemma_sort_by(free::bounds(t), order::less_than());
    vstd::seq_lib::lemma_multiset_commutative(first, edges(v));
    vstd::seq_lib::lemma_multiset_commutative(first, edges(used));
    vstd::seq_lib::lemma_multiset_commutative(first + edges(v), last);
    vstd::seq_lib::lemma_multiset_commutative(first + edges(used), last);
    assert(free::bounds(t) == first + edges(used) + last);
    assert(ladder.to_multiset() == b.to_multiset());
    assert forall|k: int| 0 <= k <= n implies #[trigger] ladder[2 * k] == gap_low(t, k)
        && ladder[2 * k + 1] == gap_high(t, k) by {
        if k > 0 {
            assert(edges(v)[2 * (k - 1) + 1] == v[k - 1].ending_lba);
        }
        if k < n {
            assert(edges(v)[2 * k] == v[k].starting_lba);
        }
    }
    let leq = |x: u64, y: u64| x <= y;
    assert(vstd::relations::sorted_by(ladder, leq)) by {
        assert forall|i: int, j: int| 0 <= i < j < ladder.len() implies #[trigger] leq(
            ladder[i],
            ladder[j],
        ) by {
            let k = i / 2;
            let m = j / 2;
            assert(i == 2 * k || i == 2 * k + 1);
            assert(j == 2 * m || j == 2 * m + 1);
            assert(ladder[2 * k] == gap_low(t, k) && ladder[2 * k + 1] == gap_high(t, k));
            assert(ladder[2 * m] == gap_low(t, m) && ladder[2 * m + 1] == gap_high(t, m));
            lemma_gaps_ascend(t, k, m);
        }
    }
    assert(vstd::relations::sorted_by(b, leq)) by {
        assert forall|i: int, j: int| 0 <= i < j < b.len() implies #[trigger] leq(b[i], b[j]) by {
            assert(!order::less_than()(b[j], b[i]));
        }
    }
    vstd::seq_lib::lemma_sorted_unique(b, ladder, leq);
}

/// A gap ends after it starts, and the next ones start no sooner than it ends.
proof fn lemma_gaps_ascend(t: TableModel, k: int, m: int)
    requires
        is_laid_out(t),
        0 <= k <= m <= lanes(t).len(),
    ensures
        gap_low(t, k) < gap_high(t, k),
        k < m ==> gap_high(t, k) <= gap_low(t, m),
{
    lemma_lanes(t);
    let v = lanes(t);
    if k > 0 {
        assert(is_usable(t, v[k - 1]));
        if k < v.len() {
            assert(v[k - 1].ending_lba < v[k].starting_lba);
        }
    }
    if k < v.len() {
        assert(is_usable(t, v[k]));
    }
    if k < m {
        assert(is_usable(t, v[m - 1]));
        if k < m - 1 {
            assert(v[k].ending_lba < v[m - 1].starting_lba);
        }
    }
}

/// The search for free space can be made in every table whose partitions lie side by side.
pub proof fn law_layout_can_be_searched(t: TableModel)
    requires
        is_laid_out(t),
        t.align > 0,
        t.header.last_usable_lba + t.align <= u64::MAX,
    ensures
        free::can_search(t),
{
    let b = free::sorted_bounds(t);
    let n = lanes(t).len();
    lemma_sorted_bounds(t);
    lemma_lanes(t);
    assert forall|k: int| 0 <= k < b.len() / 2 implies free::is_gap(
        #[trigger] b[2 * k],
        b[2 * k + 1],
        t.align,
    ) by {
        lemma_gaps_ascend(t, k, k);
        lemma_gaps_ascend(t, k, n as int);
        free::lemma_align_up(b[2 * k] + 1, t.align as int);
        if k < n {
            assert(is_usable(t, lanes(t)[k]));
        }
    }
}

/// The spots in the gaps between sorted bounds are those of the gaps, in order.
proof fn lemma_spots_ascend(b: Seq<u64>, align: u64, n: nat)
    requires
        align > 0,
        2 * n <= b.len(),
        free::are_gaps(b, align),
        order::is_sorted(b, order::less_than()),
    ensures
        forall|i: int|
            0 <= i < free::gap_spots(b, align, n).len() ==> (#[trigger] free::gap_spots(
                b,
                align,
                n,
            )[i]).0 + free::gap_spots(b, align, n)[i].1 <= b[2 * n - 1],
        forall|i: int, j: int|
            0 <= i < j < free::gap_spots(b, align, n).len() ==> (#[trigger] free::gap_spots(
                b,
                align,
                n,
            )[i]).0 + free::gap_spots(b, align, n)[i].1 <= (#[trigger] free::gap_spots(
                b,
                align,
                n,
            )[j]).0,
    decreases n,
{
    if n > 0 {
        let m = (n - 1) as nat;
        let front = free::gap_spots(b, align, m);
        let r = free::gap_spots(b, align, n);
        lemma_spots_ascend(b, align, m);
        let low = b[2 * (m as int)];
        let high = b[2 * (m as int) + 1];
        assert(free::is_gap(low, high, align));
        free::lemma_align_up(low + 1, align as int);
        if m > 0 {
            assert(!order::less_than()(b[2 * (m as int)], b[2 * (m as int) - 1]));
        }
        assert forall|i: int| 0 <= i < r.len() implies (#[trigger] r[i]).0 + r[i].1 <= b[2 * n
            - 1] by {
            if i < front.len() {
                assert(r[i] == front[i]);
            }
        }
        assert forall|i: int, j: int| 0 <= i < j < r.len() implies (#[trigger] r[i]).0 + r[i].1 <= (
        #[trigger] r[j]).0 by {
            assert(r[i] == front[i]);
            if j < front.len() {
                assert(r[j] == front[j]);
            }
        }
    }
}

/// Every gap with a spot has it among the spots.
pub proof fn lemma_gap_has_spot(b: Seq<u64>, align: u64, n: nat, k: int)
    requires
        0 <= k < n,
        free::gap_spot(b[2 * k], b[2 * k + 1], align) is Some,
    ensures
        exists|i: int|
            0 <= i < free::gap_spots(b, align, n).len() && Some(
                #[trigger] free::gap_spots(b, align, n)[i],
            ) == free::gap_spot(b[2 * k], b[2 * k + 1], align),
    decreases n,
{
    let m = (n - 1) as nat;
    let front = free::gap_spots(b, align, m);
    let r = free::gap_spots(b, align, n);
    if k < m {
        lemma_gap_has_spot(b, align, m, k);
        let i = choose|i: int|
            0 <= i < front.len() && Some(#[trigger] front[i]) == free::gap_spot(
                b[2 * k],
                b[2 * k + 1],
                align,
            );
        assert(r[i] == front[i]);
    } else {
        assert(k == m);
        assert(Some(r[r.len() - 1]) == free::gap_spot(b[2 * k], b[2 * k + 1], align));
    }
}

/// Each spot starts after the one before it has ended.
pub proof fn law_spots_ascend(t: TableModel, i: int, j: int)
    requires
        free::can_search(t),
        0 <= i < j < free::free_spots(t).len(),
    ensures
        free::free_spots(t)[i].0 + free::free_spots(t)[i].1 <= free::free_spots(t)[j].0,
{
    let b = free::sorted_bounds(t);
    free::lemma_numbers_order();
    order::lemma_sort_by(free::bounds(t), order::less_than());
    lemma_spots_ascend(b, t.align, b.len() / 2);
}

/// All the sectors of a spot are free, and it starts at a multiple of the alignment.
pub proof fn law_spots_are_free(t: TableModel, i: int)
    requires
        is_laid_out(t),
        free::can_search(t),
        0 <= i < free::free_spots(t).len(),
    ensures
        free::free_spots(t)[i].1 > 0,
        free::free_spots(t)[i].0 as int % (t.align as int) == 0,
        is_free_run(t, free::free_spots(t)[i].0 as int, free::free_spots(t)[i].1 as int),
{
    let b = free::sorted_bounds(t);
    let n = b.len() / 2;
    let spot = free::free_spots(t)[i];
    free::lemma_free_spot(t, i);
    lemma_sorted_bounds(t);
    lemma_lanes(t);
    let k = choose|k: int|
        0 <= k < n && free::gap_spot(#[trigger] b[2 * k], b[2 * k + 1], t.align) == Some(spot);
    assert(free::is_gap(b[2 * k], b[2 * k + 1], t.align));
    free::lemma_align_up(b[2 * k] + 1, t.align as int);
    assert forall|x: int|
        spot.0 <= x < spot.0 + spot.1 implies #[trigger] is_free_sector(t, x) by {
        lemma_gap_is_free(t, k, x);
    }
}

/// The sector before the gap of a spot and the one behind it are not free, and no multiple of the
/// alignment lies between the first of them and the spot.
pub proof fn lemma_spot_ends(t: TableModel, i: int) -> (r: (int, int))
    requires
        is_laid_out(t),
        free::can_search(t),
        0 <= i < free::free_spots(t).len(),
    ensures
        free::free_spots(t)[i].0 - t.align <= r.0 < free::free_spots(t)[i].0,
        !is_free_sector(t, r.0),
        r.1 == free::free_spots(t)[i].0 + free::free_spots(t)[i].1,
        !is_free_sector(t, r.1),
{
    let b = free::sorted_bounds(t);
    let n = b.len() / 2;
    let v = lanes(t);
    let spot = free::free_spots(t)[i];
    free::lemma_free_spot(t, i);
    lemma_sorted_bounds(t);
    lemma_lanes(t);
    let k = choose|k: int|
        0 <= k < n && free::gap_spot(#[trigger] b[2 * k], b[2 * k + 1], t.align) == Some(spot);
    assert(free::is_gap(b[2 * k], b[2 * k + 1], t.align));
    free::lemma_align_up(b[2 * k] + 1, t.align as int);
    let low = gap_low(t, k) as int;
    let high = gap_high(t, k) as int;
    assert(free::sorted_bounds(t)[2 * k] == gap_low(t, k));
    if k > 0 {
        assert(is_usable(t, v[k - 1]) && t.partitions.contains(v[k - 1]));
        let j = choose|j: int| 0 <= j < t.partitions.len() && t.partitions[j] == v[k - 1];
        assert(partition::is_used_entry(t.partitions[j]));
        assert(t.partitions[j].starting_lba <= low <= t.partitions[j].ending_lba);
    }
    if k < v.len() {
        assert(is_usable(t, v[k]) && t.partitions.contains(v[k]));
        let j = choose|j: int| 0 <= j < t.partitions.len() && t.partitions[j] == v[k];
        assert(partition::is_used_entry(t.partitions[j]));
        assert(t.partitions[j].starting_lba <= high <= t.partitions[j].ending_lba);
    }
    (low, high)
}

/// The sectors of a gap are free.
proof fn lemma_gap_is_free(t: TableModel, k: int, x: int)
    requires
        is_laid_out(t),
        0 <= k <= lanes(t).len(),
        gap_low(t, k) < x < gap_high(t, k),
    ensures
        is_free_sector(t, x),
{
    let v = lanes(t);
    let n = v.len();
    lemma_lanes(t);
    if k > 0 {
        assert(is_usable(t, v[k - 1]));
    }
    if k < n {
        assert(is_usable(t, v[k]));
    }
    assert forall|j: int|
        0 <= j < t.partitions.len() && partition::is_used_entry(
            #[trigger] t.partitions[j],
        ) implies !(t.partitions[j].starting_lba <= x <= t.partitions[j].ending_lba) by {
        assert(v.contains(t.partitions[j]));
        let m = choose|m: int| 0 <= m < n && v[m] == t.partitions[j];
        assert(is_usable(t, v[m]));
        if m < k {
            if m < k - 1 {
                assert(v[m].ending_lba < v[k - 1].starting_lba);
            }
        } else if m > k {
            assert(v[k].ending_lba < v[m].starting_lba);
        }
    }
}

/// A free sector lies in a gap. Here the gap is looked for from number `k` on.
proof fn lemma_free_sector_has_gap(t: TableModel, x: int, k: int) -> (g: int)
    requires
        is_laid_out(t),
        is_free_sector(t, x),
        0 <= k <= lanes(t).len(),
        gap_low(t, k) < x,
    ensures
        k <= g <= lanes(t).len(),
        gap_low(t, g) < x < gap_high(t, g),
    decreases lanes(t).len() - k,
{
    let v = lanes(t);
    lemma_lanes(t);
    if x < gap_high(t, k) {
        k
    } else {
        assert(k < v.len());
        assert(t.partitions.contains(v[k]));
        let j = choose|j: int| 0 <= j < t.partitions.len() && t.partitions[j] == v[k];
        assert(!(t.partitions[j].starting_lba <= x <= t.partitions[j].ending_lba));
        lemma_free_sector_has_gap(t, x, k + 1)
    }
}

/// Free sectors that start at a multiple of the alignment all lie in one spot.
pub proof fn law_free_runs_lie_in_spots(t: TableModel, start: int, size: int)
    requires
        is_laid_out(t),
        free::can_search(t),
        size > 0,
        start % (t.align as int) == 0,
        is_free_run(t, start, size),
    ensures
        exists|i: int|
            {
                &&& 0 <= i < free::free_spots(t).len()
                &&& (#[trigger] free::free_spots(t)[i]).0 <= start
                &&& start + size <= free::free_spots(t)[i].0 + free::free_spots(t)[i].1
            },
{
    let b = free::sorted_bounds(t);
    let n = b.len() / 2;
    let v = lanes(t);
    assert(is_free_sector(t, start));
    assert(is_free_sector(t, start + size - 1));
    lemma_lanes(t);
    lemma_sorted_bounds(t);
    let k = lemma_free_sector_has_gap(t, start, 0);
    let high = gap_high(t, k);
    if start + size > high {
        if k == v.len() {
            assert(false);
        } else {
            assert(is_free_sector(t, high as int));
            assert(t.partitions.contains(v[k]));
            let j = choose|j: int| 0 <= j < t.partitions.len() && t.partitions[j] == v[k];
            assert(is_usable(t, v[k]));
            assert(!(t.partitions[j].starting_lba <= high <= t.partitions[j].ending_lba));
            assert(false);
        }
    }
    assert(free::sorted_bounds(t)[2 * k] == gap_low(t, k));
    assert(b[2 * k + 1] == high);
    assert(free::is_gap(b[2 * k], b[2 * k + 1], t.align));
    free::lemma_align_up(b[2 * k] + 1, t.align as int);
    assert(start as int % (t.align as int) == 0);
    assert(free::align_up(b[2 * k] + 1, t.align as int) <= start);
    lemma_gap_has_spot(b, t.align, n, k);
    let i = choose|i: int|
        0 <= i < free::gap_spots(b, t.align, n).len() && Some(
            #[trigger] free::gap_spots(b, t.align, n)[i],
        ) == free::gap_spot(b[2 * k], b[2 * k + 1], t.align);
    assert(free::free_spots(t)[i].0 <= start);
}

/// Whether a partition of `size` sectors can be put at `place`: it starts at a multiple of the
/// alignment, and all its sectors are free.
pub open spec fn is_place(t: TableModel, place: int, size: u64) -> bool {
    place % (t.align as int) == 0 && is_free_run(t, place, size as int)
}

/// The first place that is found, if any, is one, and none is further to the left.
pub proof fn law_first_place(t: TableModel, size: u64, found: Option<u64>)
    requires
        is_laid_out(t),
        free::can_search(t),
        size > 0,
        free::is_first_place(t, size, found),
    ensures
        match found {
            Some(place) => is_place(t, place as int, size) && (forall|other: int|
                #[trigger] is_place(t, other, size) ==> place <= other),
            None => forall|other: int| !#[trigger] is_place(t, other, size),
        },
{
    let spots = free::free_spots(t);
    if found is Some {
        let k = choose|k: int| free::is_first_fit(spots, size, k) && found == Some(spots[k].0);
        law_spots_are_free(t, k);
        lemma_part_of_run(t, spots[k].0 as int, spots[k].1 as int, spots[k].0 as int, size as int);
    }
    assert forall|other: int| #[trigger] is_place(t, other, size) implies found is Some && found->0
        <= other by {
        let i = lemma_place_has_spot(t, other, size);
        if found is Some {
            let k = choose|k: int| free::is_first_fit(spots, size, k) && found == Some(spots[k].0);
            assert(k <= i);
            if k < i {
                law_spots_ascend(t, k, i);
            }
        }
    }
}

/// The last place that is found, if any, is one, and none is further to the right.
pub proof fn law_last_place(t: TableModel, size: u64, found: Option<u64>)
    requires
        is_laid_out(t),
        free::can_search(t),
        size > 0,
        free::is_last_place(t, size, found),
    ensures
        match found {
            Some(place) => is_place(t, place as int, size) && (forall|other: int|
                #[trigger] is_place(t, other, size) ==> other <= place),
            None => forall|other: int| !#[trigger] is_place(t, other, size),
        },
{
    let spots = free::free_spots(t);
    let align = t.align as int;
    if found is Some {
        let k = choose|k: int|
            free::is_last_fit(spots, size, k) && found == Some(
                free::align_down(spots[k].0 + spots[k].1 - size, align) as u64,
            );
        let place = found->0 as int;
        law_spots_are_free(t, k);
        free::lemma_free_spot(t, k);
        free::lemma_align_down(spots[k].0 + spots[k].1 - size, align);
        assert(spots[k].0 as int % align == 0);
        lemma_part_of_run(t, spots[k].0 as int, spots[k].1 as int, place, size as int);
        assert forall|other: int| #[trigger] is_place(t, other, size) implies other <= place by {
            let i = lemma_place_has_spot(t, other, size);
            assert(i <= k);
            if i < k {
                law_spots_ascend(t, i, k);
            } else {
                assert(other % align == 0);
            }
        }
    } else {
        assert forall|other: int| !#[trigger] is_place(t, other, size) by {
            if is_place(t, other, size) {
                let i = lemma_place_has_spot(t, other, size);
                assert(spots[i].1 < size);
            }
        }
    }
}

/// The optimal place that is found, if any, is one.
pub proof fn law_optimal_place(t: TableModel, size: u64, found: Option<u64>)
    requires
        is_laid_out(t),
        free::can_search(t),
        size > 0,
        free::is_optimal_place(t, size, found),
    ensures
        match found {
            Some(place) => is_place(t, place as int, size),
            None => forall|other: int| !#[trigger] is_place(t, other, size),
        },
{
    let spots = free::free_spots(t);
    if found is Some {
        let k = choose|k: int| free::is_tightest(spots, size, k) && found == Some(spots[k].0);
        law_spots_are_free(t, k);
        lemma_part_of_run(t, spots[k].0 as int, spots[k].1 as int, spots[k].0 as int, size as int);
    } else {
        assert forall|other: int| !#[trigger] is_place(t, other, size) by {
            if is_place(t, other, size) {
                let i = lemma_place_has_spot(t, other, size);
                assert(spots[i].1 < size);
            }
        }
    }
}

/// The maximum size of a partition is a multiple of the alignment, the searches find a place for
/// a partition of that size, and there is no place for one whose size is a larger multiple.
pub proof fn law_maximum_size(t: TableModel, max: u64)
    requires
        is_laid_out(t),
        free::can_search(t),
        free::is_maximum_size(t, max),
    ensures
        max as int % (t.align as int) == 0,
        !free::is_first_place(t, max, None),
        !free::is_last_place(t, max, None),
        !free::is_optimal_place(t, max, None),
        forall|place: int, size: u64|
            size > max && size as int % (t.align as int) == 0 ==> !#[trigger] is_place(
                t,
                place,
                size,
            ),
{
    let spots = free::free_spots(t);
    let align = t.align as int;
    let k = choose|k: int|
        0 <= k < spots.len() && max == free::align_down((#[trigger] spots[k]).1 as int, align);
    free::lemma_align_down(spots[k].1 as int, align);
    assert(max <= spots[k].1);
    assert forall|place: int, size: u64|
        size > max && size as int % align == 0 implies !#[trigger] is_place(t, place, size) by {
        if is_place(t, place, size) {
            let i = lemma_place_has_spot(t, place, size);
            free::lemma_align_down(spots[i].1 as int, align);
            assert(free::align_down(spots[i].1 as int, align) <= max);
        }
    }
}

/// A place lies in a spot that has room for it.
proof fn lemma_place_has_spot(t: TableModel, place: int, size: u64) -> (i: int)
    requires
        is_laid_out(t),
        free::can_search(t),
        size > 0,
        is_place(t, place, size),
    ensures
        0 <= i < free::free_spots(t).len(),
        free::free_spots(t)[i].0 <= place,
        place + size <= free::free_spots(t)[i].0 + free::free_spots(t)[i].1,
        size <= free::free_spots(t)[i].1,
{
    law_free_runs_lie_in_spots(t, place, size as int);
    choose|i: int|
        {
            &&& 0 <= i < free::free_spots(t).len()
            &&& (#[trigger] free::free_spots(t)[i]).0 <= place
            &&& place + size <= free::free_spots(t)[i].0 + free::free_spots(t)[i].1
        }
}

proof fn lemma_part_of_run(t: TableModel, start: int, size: int, from: int, len: int)
    requires
        is_free_run(t, start, size),
        start <= from,
        from + len <= start + size,
    ensures
        is_free_run(t, from, len),
{
}

/// A partition that is put at a place leaves the partitions side by side.
pub proof fn law_new_partition_keeps_layout(t: TableModel, i: int, e: EntryModel, size: u64)
    requires
        is_laid_out(t),
        0 <= i < t.partitions.len(),
        !partition::is_used_entry(t.partitions[i]),
        size > 0,
        is_place(t, e.starting_lba as int, size),
        e.ending_lba == e.starting_lba + size - 1,
    ensures
        is_laid_out(TableModel { partitions: t.partitions.update(i, e), ..t }),
{
    let r = TableModel { partitions: t.partitions.update(i, e), ..t };
    assert(is_free_sector(t, e.starting_lba as int));
    assert(is_free_sector(t, e.ending_lba as int));
    assert forall|j: int|
        0 <= j < t.partitions.len() && j != i && partition::is_used_entry(
            #[trigger] t.partitions[j],
        ) implies are_apart(t.partitions[j], e) by {
        let p = t.partitions[j];
        if !are_apart(p, e) {
            assert(is_usable(t, p));
            assert(!(p.starting_lba <= e.starting_lba <= p.ending_lba));
            assert(is_free_sector(t, p.starting_lba as int));
            assert(!(p.starting_lba <= p.starting_lba <= p.ending_lba));
        }
    }
    assert forall|a: int|
        0 <= a < r.partitions.len() && partition::is_used_entry(
            #[trigger] r.partitions[a],
        ) implies is_usable(r, r.partitions[a]) by {
        if a != i {
            assert(is_usable(t, t.partitions[a]));
        }
    }
    assert forall|a: int, b: int|
        0 <= a < b < r.partitions.len() && partition::is_used_entry(r.partitions[a])
            && partition::is_used_entry(r.partitions[b]) implies are_apart(
        #[trigger] r.partitions[a],
        #[trigger] r.partitions[b],
    ) by {
        if a != i && b != i {
            assert(are_apart(t.partitions[a], t.partitions[b]));
        } else if a == i {
            assert(are_apart(t.partitions[b], e));
        } else {
            assert(are_apart(t.partitions[a], e));
        }
    }
}

/// A partition that is removed leaves the others side by side.
pub proof fn law_removal_keeps_layout(t: TableModel, i: int)
    requires
        is_laid_out(t),
        0 <= i < t.partitions.len(),
    ensures
        is_laid_out(
            (TableModel { partitions: t.partitions.update(i, partition::empty_entry()), ..t }),
        ),
{
    let r = TableModel { partitions: t.partitions.update(i, partition::empty_entry()), ..t };
    assert(!partition::is_used_entry(partition::empty_entry()));
    assert forall|a: int|
        0 <= a < r.partitions.len() && partition::is_used_entry(
            #[trigger] r.partitions[a],
        ) implies is_usable(r, r.partitions[a]) by {
        assert(a != i);
        assert(is_usable(t, t.partitions[a]));
    }
    assert forall|a: int, b: int|
        0 <= a < b < r.partitions.len() && partition::is_used_entry(r.partitions[a])
            && partition::is_used_entry(r.partitions[b]) implies are_apart(
        #[trigger] r.partitions[a],
        #[trigger] r.partitions[b],
    ) by {
        assert(are_apart(t.partitions[a], t.partitions[b]));
    }
}

/// Sorting the entries of a table leaves its partitions side by side.
pub proof fn law_sort_keeps_layout(t: TableModel)
    requires
        is_laid_out(t),
    ensures
        is_laid_out(
            (TableModel {
                partitions: order::sort_by(t.partitions, table::entry_order()),
                ..t
            }),
        ),
{
    broadcast use vstd::seq_lib::group_to_multiset_ensures;

    let before = table::entry_order();
    let sorted = order::sort_by(t.partitions, before);
    let r = TableModel { partitions: sorted, ..t };
    let rel = |a: EntryModel, b: EntryModel|
        partition::is_used_entry(a) && partition::is_used_entry(b) ==> are_apart(a, b);
    table::lemma_entry_order();
    order::lemma_sort_by(t.partitions, before);
    assert forall|i: int, j: int| 0 <= i < j < t.partitions.len() implies #[trigger] rel(
        t.partitions[i],
        t.partitions[j],
    ) by {
        let a = t.partitions[i];
        let b = t.partitions[j];
        assert(partition::is_used_entry(a) && partition::is_used_entry(b) ==> are_apart(a, b));
    }
    order::lemma_sort_by_pairs(t.partitions, before, rel);
    assert forall|i: int|
        0 <= i < sorted.len() && partition::is_used_entry(#[trigger] sorted[i]) implies is_usable(
        r,
        sorted[i],
    ) by {
        assert(sorted.contains(sorted[i]) && sorted.to_multiset().count(sorted[i]) > 0);
        assert(t.partitions.contains(sorted[i]));
        let k = choose|k: int| 0 <= k < t.partitions.len() && t.partitions[k] == sorted[i];
        assert(is_usable(t, t.partitions[k]));
    }
    assert forall|i: int, j: int|
        0 <= i < j < sorted.len() && partition::is_used_entry(sorted[i])
            && partition::is_used_entry(sorted[j]) implies are_apart(
        #[trigger] sorted[i],
        #[trigger] sorted[j],
    ) by {
        assert(rel(sorted[i], sorted[j]));
    }
}

/// The bounds of one entry, as a multiset.
spec fn entry_bounds(e: EntryModel) -> vstd::multiset::Multiset<u64> {
    if partition::is_used_entry(e) {
        vstd::multiset::Multiset::empty().insert(e.starting_lba).insert(e.ending_lba)
    } else {
        vstd::multiset::Multiset::empty()
    }
}

proof fn lemma_used_bounds_push(s: Seq<EntryModel>, e: EntryModel)
    ensures
        free::used_bounds(s.push(e)).to_multiset() == free::used_bounds(s).to_multiset().add(
            entry_bounds(e),
        ),
{
    broadcast use vstd::multiset::group_multiset_axioms;
    broadcast use vstd::seq_lib::group_to_multiset_ensures;

    assert(s.push(e).drop_last() =~= s);
    assert(free::used_bounds(s.push(e)).to_multiset() =~= free::used_bounds(s).to_multiset().add(
        entry_bounds(e),
    ));
}

proof fn lemma_used_bounds_remove(s: Seq<EntryModel>, i: int)
    requires
        0 <= i < s.len(),
    ensures
        free::used_bounds(s).to_multiset() == free::used_bounds(s.remove(i)).to_multiset().add(
            entry_bounds(s[i]),
        ),
    decreases s.len(),
{
    broadcast use vstd::multiset::group_multiset_axioms;

    let front = s.drop_last();
    let last = s.last();
    assert(s =~= front.push(last));
    lemma_used_bounds_push(front, last);
    if i == s.len() - 1 {
        assert(s.remove(i) =~= front);
    } else {
        lemma_used_bounds_remove(front, i);
        lemma_used_bounds_push(front.remove(i), last);
        assert(s.remove(i) =~= front.remove(i).push(last));
        assert(free::used_bounds(s).to_multiset() =~= free::used_bounds(
            s.remove(i),
        ).to_multiset().add(entry_bounds(s[i])));
    }
}

proof fn lemma_used_bounds_of_same(a: Seq<EntryModel>, b: Seq<EntryModel>)
    requires
        a.to_multiset() == b.to_multiset(),
    ensures
        free::used_bounds(a).to_multiset() == free::used_bounds(b).to_multiset(),
    decreases a.len(),
{
    broadcast use vstd::multiset::group_multiset_axioms;
    broadcast use vstd::seq_lib::group_to_multiset_ensures;

    assert(a.len() == a.to_multiset().len() && b.len() == b.to_multiset().len());
    if a.len() > 0 {
        let n = a.len() - 1;
        let last = a[n];
        assert(a.contains(last) && a.to_multiset().count(last) > 0);
        assert(b.contains(last));
        let i = choose|i: int| 0 <= i < b.len() && b[i] == last;
        assert(a.remove(n).to_multiset() =~= a.to_multiset().remove(last));
        assert(b.remove(i).to_multiset() =~= b.to_multiset().remove(last));
        lemma_used_bounds_of_same(a.remove(n), b.remove(i));
        lemma_used_bounds_remove(a, n);
        lemma_used_bounds_remove(b, i);
    } else {
        assert(a =~= b);
    }
}

proof fn lemma_used_bounds_of_used(entries: Seq<EntryModel>)
    ensures
        free::used_bounds(used_entries(entries)) == free::used_bounds(entries),
    decreases entries.len(),
{
    if entries.len() > 0 {
        let front = entries.drop_last();
        lemma_used_bounds_of_used(front);
        if partition::is_used_entry(entries.last()) {
            assert(used_entries(entries).drop_last() =~= used_entries(front));
        }
    }
}

/// The order of the entries in the array makes no difference to the search for free space.
pub proof fn law_search_ignores_entry_order(t: TableModel, u: TableModel)
    requires
        u == (TableModel { partitions: u.partitions, ..t }),
        u.partitions.to_multiset() == t.partitions.to_multiset(),
    ensures
        free::can_search(u) == free::can_search(t),
        free::free_spots(u) == free::free_spots(t),
{
    lemma_used_bounds_of_same(t.partitions, u.partitions);
    lemma_search_by_bounds(t, u);
}

/// The search for free space depends on the entries that are used alone: neither what the others
/// hold, nor how many there are, nor the order of the entries makes a difference.
pub proof fn law_search_ignores_unused_entries(t: TableModel, u: TableModel)
    requires
        u == (TableModel { partitions: u.partitions, ..t }),
        used_entries(u.partitions).to_multiset() == used_entries(t.partitions).to_multiset(),
    ensures
        free::can_search(u) == free::can_search(t),
        free::free_spots(u) == free::free_spots(t),
{
    lemma_used_bounds_of_used(t.partitions);
    lemma_used_bounds_of_used(u.partitions);
    lemma_used_bounds_of_same(used_entries(t.partitions), used_entries(u.partitions));
    lemma_search_by_bounds(t, u);
}

proof fn lemma_search_by_bounds(t: TableModel, u: TableModel)
    requires
        u == (TableModel { partitions: u.partitions, ..t }),
        free::used_bounds(t.partitions).to_multiset() == free::used_bounds(
            u.partitions,
        ).to_multiset(),
    ensures
        free::can_search(u) == free::can_search(t),
        free::free_spots(u) == free::free_spots(t),
{
    let first = seq![(t.header.first_usable_lba - 1) as u64];
    let last = seq![(t.header.last_usable_lba + 1) as u64];
    let a = free::used_bounds(t.partitions);
    let b = free::used_bounds(u.partitions);
    vstd::seq_lib::lemma_multiset_commutative(first, a);
    vstd::seq_lib::lemma_multiset_commutative(first, b);
    vstd::seq_lib::lemma_multiset_commutative(first + a, last);
    vstd::seq_lib::lemma_multiset_commutative(first + b, last);
    free::lemma_numbers_order();
    order::lemma_sort_by(free::bounds(t), order::less_than());
    order::lemma_sort_by(free::bounds(u), order::less_than());
    let x = free::sorted_bounds(t);
    let y = free::sorted_bounds(u);
    let leq = |v: u64, w: u64| v <= w;
    assert(vstd::relations::sorted_by(x, leq)) by {
        assert forall|i: int, j: int| 0 <= i < j < x.len() implies #[trigger] leq(x[i], x[j]) by {
            assert(!order::less_than()(x[j], x[i]));
        }
    }
    assert(vstd::relations::sorted_by(y, leq)) by {
        assert forall|i: int, j: int| 0 <= i < j < y.len() implies #[trigger] leq(y[i], y[j]) by {
            assert(!order::less_than()(y[j], y[i]));
        }
    }
    vstd::seq_lib::lemma_sorted_unique(x, y, leq);
}

} // verus!
