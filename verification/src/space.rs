//! What the search for free space finds, sector by sector.

use vstd::prelude::*;
use crate::free;
use crate::layout;
use crate::meaning;
use crate::order;
use crate::partition;
use crate::partition::EntryModel;
use crate::table::TableModel;

verus! {

/// Whether a sector belongs to a partition: it lies between the first and the last LBA of an entry
/// that is taken.
pub open spec fn is_occupied(t: TableModel, x: int) -> bool {
    exists|i: int|
        0 <= i < t.partitions.len() && meaning::is_taken(#[trigger] t.partitions[i])
            && t.partitions[i].starting_lba <= x <= t.partitions[i].ending_lba
}

/// Whether a sector can be used for a new partition.
pub open spec fn is_open(t: TableModel, x: int) -> bool {
    t.header.first_usable_lba <= x <= t.header.last_usable_lba && !is_occupied(t, x)
}

/// Whether all of `size` sectors can be used for a new partition.
pub open spec fn is_open_run(t: TableModel, start: int, size: int) -> bool {
    forall|x: int| start <= x < start + size ==> #[trigger] is_open(t, x)
}

/// Whether some open sectors are a whole spot: they start at a multiple of the alignment, the
/// sector behind them is not open, and neither are all the sectors from the multiple before.
pub open spec fn is_whole_spot(t: TableModel, start: int, size: int) -> bool {
    &&& start % (t.align as int) == 0
    &&& size > 0
    &&& is_open_run(t, start, size)
    &&& !is_open(t, start + size)
    &&& !is_open_run(t, start - t.align, t.align as int)
}

/// Whether a new partition of `size` sectors can start at a sector.
pub open spec fn has_place_at(t: TableModel, start: int, size: u64) -> bool {
    start % (t.align as int) == 0 && is_open_run(t, start, size as int)
}

/// Whether the partitions of a table are all within its usable sectors, and no sector belongs to
/// two of them; and the alignment is a number to count with.
pub open spec fn is_tidy(t: TableModel) -> bool {
    &&& meaning::have_guids(t.partitions)
    &&& 0 < t.header.first_usable_lba <= t.header.last_usable_lba + 1
    &&& 0 < t.align
    &&& t.header.last_usable_lba + t.align <= u64::MAX
    &&& forall|i: int|
        0 <= i < t.partitions.len() && meaning::is_taken(#[trigger] t.partitions[i])
            ==> t.header.first_usable_lba <= t.partitions[i].starting_lba
            <= t.partitions[i].ending_lba <= t.header.last_usable_lba
    &&& forall|i: int, j: int|
        0 <= i < j < t.partitions.len() && meaning::is_taken(#[trigger] t.partitions[i])
            && meaning::is_taken(#[trigger] t.partitions[j]) ==> t.partitions[i].ending_lba
            < t.partitions[j].starting_lba || t.partitions[j].ending_lba
            < t.partitions[i].starting_lba
}

proof fn lemma_taken(t: TableModel)
    requires
        meaning::have_guids(t.partitions),
    ensures
        forall|i: int|
            0 <= i < t.partitions.len() ==> partition::is_used_entry(#[trigger] t.partitions[i])
                == meaning::is_taken(t.partitions[i]),
{
    assert forall|i: int| 0 <= i < t.partitions.len() implies partition::is_used_entry(
        #[trigger] t.partitions[i],
    ) == meaning::is_taken(t.partitions[i]) by {
        meaning::law_used(t.partitions[i]);
    }
}

proof fn lemma_tidy(t: TableModel)
    requires
        is_tidy(t),
    ensures
        layout::is_laid_out(t),
        free::can_search(t),
{
    lemma_taken(t);
    assert forall|i: int|
        0 <= i < t.partitions.len() && partition::is_used_entry(
            #[trigger] t.partitions[i],
        ) implies layout::is_usable(t, t.partitions[i]) by {
        assert(meaning::is_taken(t.partitions[i]));
    }
    assert forall|i: int, j: int|
        0 <= i < j < t.partitions.len() && partition::is_used_entry(t.partitions[i])
            && partition::is_used_entry(t.partitions[j]) implies layout::are_apart(
        #[trigger] t.partitions[i],
        #[trigger] t.partitions[j],
    ) by {
        assert(meaning::is_taken(t.partitions[i]) && meaning::is_taken(t.partitions[j]));
    }
    layout::law_layout_can_be_searched(t);
}

proof fn lemma_open(t: TableModel, x: int)
    requires
        meaning::have_guids(t.partitions),
    ensures
        is_open(t, x) <==> layout::is_free_sector(t, x),
{
    lemma_taken(t);
    if is_open(t, x) {
        assert forall|i: int|
            0 <= i < t.partitions.len() && partition::is_used_entry(
                #[trigger] t.partitions[i],
            ) implies !(t.partitions[i].starting_lba <= x <= t.partitions[i].ending_lba) by {
            assert(meaning::is_taken(t.partitions[i]));
        }
    }
    if layout::is_free_sector(t, x) {
        if is_occupied(t, x) {
            let i = choose|i: int|
                0 <= i < t.partitions.len() && meaning::is_taken(#[trigger] t.partitions[i])
                    && t.partitions[i].starting_lba <= x <= t.partitions[i].ending_lba;
            assert(partition::is_used_entry(t.partitions[i]));
        }
    }
}

proof fn lemma_open_run(t: TableModel, start: int, size: int)
    requires
        meaning::have_guids(t.partitions),
    ensures
        is_open_run(t, start, size) <==> layout::is_free_run(t, start, size),
{
    if is_open_run(t, start, size) {
        assert forall|x: int| start <= x < start + size implies #[trigger] layout::is_free_sector(
            t,
            x,
        ) by {
            lemma_open(t, x);
            assert(is_open(t, x));
        }
    }
    if layout::is_free_run(t, start, size) {
        assert forall|x: int| start <= x < start + size implies #[trigger] is_open(t, x) by {
            lemma_open(t, x);
            assert(layout::is_free_sector(t, x));
        }
    }
}

proof fn lemma_spot_is_whole(t: TableModel, i: int)
    requires
        is_tidy(t),
        0 <= i < free::free_spots(t).len(),
    ensures
        is_whole_spot(t, free::free_spots(t)[i].0 as int, free::free_spots(t)[i].1 as int),
{
    let spot = free::free_spots(t)[i];
    lemma_tidy(t);
    layout::law_spots_are_free(t, i);
    lemma_open_run(t, spot.0 as int, spot.1 as int);
    let (low, high) = layout::lemma_spot_ends(t, i);
    lemma_open(t, low);
    lemma_open(t, high);
    assert(!is_open(t, low));
    assert(spot.0 - t.align <= low < spot.0);
}

proof fn lemma_whole_spot_is_found(t: TableModel, start: int, size: int) -> (i: int)
    requires
        is_tidy(t),
        is_whole_spot(t, start, size),
    ensures
        0 <= i < free::free_spots(t).len(),
        free::free_spots(t)[i].0 == start,
        free::free_spots(t)[i].1 == size,
{
    let align = t.align as int;
    lemma_tidy(t);
    lemma_open_run(t, start, size);
    layout::law_free_runs_lie_in_spots(t, start, size);
    let i = choose|i: int|
        {
            &&& 0 <= i < free::free_spots(t).len()
            &&& (#[trigger] free::free_spots(t)[i]).0 <= start
            &&& start + size <= free::free_spots(t)[i].0 + free::free_spots(t)[i].1
        };
    let spot = free::free_spots(t)[i];
    layout::law_spots_are_free(t, i);
    lemma_open_run(t, spot.0 as int, spot.1 as int);
    if spot.0 < start {
        lemma_multiples_apart(spot.0 as int, start, align);
        assert forall|x: int| start - align <= x < start implies #[trigger] is_open(t, x) by {
            assert(spot.0 <= x < spot.0 + spot.1);
        }
        assert(is_open_run(t, start - align, align));
        assert(false);
    }
    if start + size < spot.0 + spot.1 {
        assert(is_open(t, start + size));
        assert(false);
    }
    i
}

proof fn lemma_multiples_apart(a: int, b: int, d: int)
    requires
        d > 0,
        a % d == 0,
        b % d == 0,
        a < b,
    ensures
        a <= b - d,
{
    vstd::arithmetic::div_mod::lemma_fundamental_div_mod(a, d);
    vstd::arithmetic::div_mod::lemma_fundamental_div_mod(b, d);
    let p = a / d;
    let q = b / d;
    assert(a <= b - d) by (nonlinear_arith)
        requires
            a == d * p,
            b == d * q,
            a < b,
            d > 0,
    ;
}

/// The search finds all the whole spots between the partitions of a table, and nothing else, from
/// the left to the right.
pub proof fn law_spots(t: TableModel)
    requires
        is_tidy(t),
    ensures
        free::can_search(t),
        forall|i: int|
            0 <= i < free::free_spots(t).len() ==> is_whole_spot(
                t,
                (#[trigger] free::free_spots(t)[i]).0 as int,
                free::free_spots(t)[i].1 as int,
            ),
        forall|start: int, size: int|
            #[trigger] is_whole_spot(t, start, size) ==> is_found(
                free::free_spots(t),
                start,
                size,
            ),
        forall|i: int, j: int|
            0 <= i < j < free::free_spots(t).len() ==> (#[trigger] free::free_spots(t)[i]).0
                + free::free_spots(t)[i].1 <= (#[trigger] free::free_spots(t)[j]).0,
{
    lemma_tidy(t);
    assert forall|i: int| 0 <= i < free::free_spots(t).len() implies is_whole_spot(
        t,
        (#[trigger] free::free_spots(t)[i]).0 as int,
        free::free_spots(t)[i].1 as int,
    ) by {
        lemma_spot_is_whole(t, i);
    }
    assert forall|start: int, size: int| #[trigger] is_whole_spot(t, start, size) implies is_found(
        free::free_spots(t),
        start,
        size,
    ) by {
        let i = lemma_whole_spot_is_found(t, start, size);
        assert(free::free_spots(t)[i].0 == start);
    }
    assert forall|i: int, j: int| 0 <= i < j < free::free_spots(t).len() implies (
    #[trigger] free::free_spots(t)[i]).0 + free::free_spots(t)[i].1 <= (
    #[trigger] free::free_spots(t)[j]).0 by {
        layout::law_spots_ascend(t, i, j);
    }
}

/// Whether a spot is among some spots.
pub open spec fn is_found(spots: Seq<(u64, u64)>, start: int, size: int) -> bool {
    exists|i: int|
        0 <= i < spots.len() && (#[trigger] spots[i]).0 == start && spots[i].1 == size
}

proof fn lemma_place(t: TableModel, start: int, size: u64)
    requires
        meaning::have_guids(t.partitions),
    ensures
        has_place_at(t, start, size) <==> layout::is_place(t, start, size),
{
    lemma_open_run(t, start, size as int);
}

/// The first place for a partition is a place for it, and no place is further to the left. There is
/// none only if there is no place at all.
pub proof fn law_leftmost_place(t: TableModel, size: u64, found: Option<u64>)
    requires
        is_tidy(t),
        size > 0,
        free::is_first_place(t, size, found),
    ensures
        match found {
            Some(p) => has_place_at(t, p as int, size) && (forall|q: int|
                #[trigger] has_place_at(t, q, size) ==> p <= q),
            None => forall|q: int| !#[trigger] has_place_at(t, q, size),
        },
{
    lemma_tidy(t);
    layout::law_first_place(t, size, found);
    assert forall|q: int| #[trigger] has_place_at(t, q, size) == layout::is_place(t, q, size) by {
        lemma_place(t, q, size);
    }
}

/// The last place for a partition is a place for it, and no place is further to the right. There is
/// none only if there is no place at all.
pub proof fn law_rightmost_place(t: TableModel, size: u64, found: Option<u64>)
    requires
        is_tidy(t),
        size > 0,
        free::is_last_place(t, size, found),
    ensures
        match found {
            Some(p) => has_place_at(t, p as int, size) && (forall|q: int|
                #[trigger] has_place_at(t, q, size) ==> q <= p),
            None => forall|q: int| !#[trigger] has_place_at(t, q, size),
        },
{
    lemma_tidy(t);
    layout::law_last_place(t, size, found);
    assert forall|q: int| #[trigger] has_place_at(t, q, size) == layout::is_place(t, q, size) by {
        lemma_place(t, q, size);
    }
}

/// The optimal place for a partition is the start of a whole spot that has room for it. Every other
/// spot that has room is larger, or as large and further to the right. There is none only if there
/// is no place at all.
pub proof fn law_tightest_place(t: TableModel, size: u64, found: Option<u64>)
    requires
        is_tidy(t),
        size > 0,
        free::is_optimal_place(t, size, found),
    ensures
        match found {
            Some(p) => has_place_at(t, p as int, size) && (exists|room: int|
                room >= size && #[trigger] is_whole_spot(t, p as int, room) && (forall|
                    q: int,
                    other: int,
                |
                    other >= size && #[trigger] is_whole_spot(t, q, other) ==> room < other || (room
                        == other && p <= q))),
            None => forall|q: int| !#[trigger] has_place_at(t, q, size),
        },
{
    let spots = free::free_spots(t);
    lemma_tidy(t);
    layout::law_optimal_place(t, size, found);
    assert forall|q: int| #[trigger] has_place_at(t, q, size) == layout::is_place(t, q, size) by {
        lemma_place(t, q, size);
    }
    if found is Some {
        let p = found->0;
        let k = choose|k: int| #[trigger] free::is_tightest(spots, size, k) && p == spots[k].0;
        let room = spots[k].1 as int;
        lemma_spot_is_whole(t, k);
        assert(is_whole_spot(t, p as int, room));
        assert forall|q: int, other: int|
            other >= size && #[trigger] is_whole_spot(t, q, other) implies room < other || (room
            == other && p <= q) by {
            let i = lemma_whole_spot_is_found(t, q, other);
            assert(spots[k].1 <= spots[i].1);
            if i < k {
                assert(spots[k].1 < spots[i].1);
            } else if i > k {
                layout::law_spots_ascend(t, k, i);
            }
        }
    }
}

/// The maximum size is a multiple of the alignment for which there is a place, unless it is zero,
/// and there is no place for a larger multiple.
pub proof fn law_largest_size(t: TableModel, max: u64)
    requires
        is_tidy(t),
        free::is_maximum_size(t, max),
    ensures
        max as int % (t.align as int) == 0,
        max > 0 ==> exists|p: int| #[trigger] has_place_at(t, p, max),
        forall|p: int, size: u64|
            size > max && size as int % (t.align as int) == 0 ==> !#[trigger] has_place_at(
                t,
                p,
                size,
            ),
{
    let spots = free::free_spots(t);
    let align = t.align as int;
    lemma_tidy(t);
    layout::law_maximum_size(t, max);
    assert forall|p: int, size: u64|
        size > max && size as int % align == 0 implies !#[trigger] has_place_at(t, p, size) by {
        lemma_place(t, p, size);
        assert(!layout::is_place(t, p, size));
    }
    if max > 0 {
        let k = choose|k: int|
            0 <= k < spots.len() && max == free::align_down((#[trigger] spots[k]).1 as int, align);
        free::lemma_align_down(spots[k].1 as int, align);
        lemma_spot_is_whole(t, k);
        assert(has_place_at(t, spots[k].0 as int, max)) by {
            assert forall|x: int| spots[k].0 <= x < spots[k].0 + max implies #[trigger] is_open(
                t,
                x,
            ) by {
                assert(is_open_run(t, spots[k].0 as int, spots[k].1 as int));
            }
        }
    }
}

/// There is no spot only if no open sector is a multiple of the alignment.
pub proof fn law_no_space(t: TableModel)
    requires
        is_tidy(t),
    ensures
        free::free_spots(t).len() == 0 <==> forall|p: int| !#[trigger] has_place_at(t, p, 1),
{
    let spots = free::free_spots(t);
    lemma_tidy(t);
    if spots.len() > 0 {
        lemma_spot_is_whole(t, 0);
        let p = spots[0].0 as int;
        assert(is_open(t, p));
        assert(has_place_at(t, p, 1));
    } else {
        assert forall|p: int| !#[trigger] has_place_at(t, p, 1) by {
            lemma_place(t, p, 1);
            if has_place_at(t, p, 1) {
                lemma_open_run(t, p, 1);
                layout::law_free_runs_lie_in_spots(t, p, 1);
            }
        }
    }
}

/// The bounds of a table, for the numbers of its entries that are taken.
pub open spec fn bounds_of(t: TableModel, taken: Seq<int>) -> Seq<u64> {
    Seq::new(
        2 * taken.len() + 2,
        |k: int|
            if k == 0 {
                (t.header.first_usable_lba - 1) as u64
            } else if k == 2 * taken.len() + 1 {
                (t.header.last_usable_lba + 1) as u64
            } else if k % 2 == 1 {
                t.partitions[taken[(k - 1) / 2]].starting_lba
            } else {
                t.partitions[taken[(k - 1) / 2]].ending_lba
            },
    )
}

/// Whether `taken` are the numbers of all the entries that are taken, in order.
pub open spec fn are_all_taken(entries: Seq<EntryModel>, taken: Seq<int>) -> bool {
    &&& forall|k: int|
        0 <= k < taken.len() ==> 0 <= #[trigger] taken[k] < entries.len() && meaning::is_taken(
            entries[taken[k]],
        )
    &&& forall|k: int, m: int|
        0 <= k < m < taken.len() ==> #[trigger] taken[k] < #[trigger] taken[m]
    &&& forall|i: int|
        0 <= i < entries.len() && meaning::is_taken(#[trigger] entries[i]) ==> taken.contains(i)
}

proof fn lemma_bounds_of(entries: Seq<EntryModel>, taken: Seq<int>)
    requires
        meaning::have_guids(entries),
        are_all_taken(entries, taken),
    ensures
        free::used_bounds(entries).len() == 2 * taken.len(),
        forall|k: int|
            0 <= k < taken.len() ==> free::used_bounds(entries)[2 * k] == entries[
                #[trigger] taken[k]
            ].starting_lba && free::used_bounds(entries)[2 * k + 1] == entries[taken[k]].ending_lba,
    decreases entries.len(),
{
    let all = free::used_bounds(entries);
    if entries.len() == 0 {
        assert(taken.len() == 0) by {
            if taken.len() > 0 {
                assert(0 <= taken[0] < entries.len());
            }
        }
    } else {
        let front = entries.drop_last();
        let n = front.len() as int;
        assert forall|i: int| 0 <= i < n implies (#[trigger] front[i]).partition_type_guid.len()
            == 16 && front[i].unique_parition_guid.len() == 16 by {
            assert(entries[i].partition_type_guid.len() == 16);
        }
        meaning::law_used(entries[n]);
        if meaning::is_taken(entries[n]) {
            assert(taken.contains(n));
            let last = choose|k: int| 0 <= k < taken.len() && taken[k] == n;
            if last < taken.len() - 1 {
                assert(taken[last] < taken[taken.len() - 1]);
            }
            let rest = taken.drop_last();
            assert(are_all_taken(front, rest)) by {
                assert forall|k: int| 0 <= k < rest.len() implies 0 <= #[trigger] rest[k]
                    < front.len() && meaning::is_taken(front[rest[k]]) by {
                    assert(taken[k] < taken[taken.len() - 1]);
                    assert(meaning::is_taken(entries[taken[k]]));
                }
                assert forall|k: int, m: int| 0 <= k < m < rest.len() implies #[trigger] rest[k]
                    < #[trigger] rest[m] by {
                    assert(taken[k] < taken[m]);
                }
                assert forall|i: int|
                    0 <= i < front.len() && meaning::is_taken(
                        #[trigger] front[i],
                    ) implies rest.contains(i) by {
                    assert(meaning::is_taken(entries[i]));
                    assert(taken.contains(i));
                    let k = choose|k: int| 0 <= k < taken.len() && taken[k] == i;
                    assert(rest[k] == i);
                }
            }
            lemma_bounds_of(front, rest);
            assert forall|k: int| 0 <= k < taken.len() implies all[2 * k] == entries[
                #[trigger] taken[k]
            ].starting_lba && all[2 * k + 1] == entries[taken[k]].ending_lba by {
                if k < rest.len() {
                    assert(rest[k] == taken[k]);
                }
            }
        } else {
            assert(are_all_taken(front, taken)) by {
                assert forall|k: int| 0 <= k < taken.len() implies 0 <= #[trigger] taken[k]
                    < front.len() && meaning::is_taken(front[taken[k]]) by {
                    assert(meaning::is_taken(entries[taken[k]]));
                }
                assert forall|i: int|
                    0 <= i < front.len() && meaning::is_taken(
                        #[trigger] front[i],
                    ) implies taken.contains(i) by {
                    assert(meaning::is_taken(entries[i]));
                }
            }
            lemma_bounds_of(front, taken);
            assert forall|k: int| 0 <= k < taken.len() implies all[2 * k] == entries[
                #[trigger] taken[k]
            ].starting_lba && all[2 * k + 1] == entries[taken[k]].ending_lba by {
                assert(front[taken[k]] == entries[taken[k]]);
            }
        }
    }
}

/// Whether the first multiple of `align` behind `low` is `start`.
pub open spec fn is_next_multiple(low: int, align: int, start: int) -> bool {
    low < start <= low + align && start % align == 0
}

/// The search in any table, tidy or not, takes the sector before the first usable one, the first
/// and the last sector of every partition, and the sector after the last usable one, sorts these,
/// and looks between the first and the second of them, the third and the fourth, and so on. Each
/// time it finds what there is from the first multiple of the alignment on.
pub proof fn law_search_between_bounds(t: TableModel, taken: Seq<int>, b: Seq<u64>)
    requires
        meaning::have_guids(t.partitions),
        are_all_taken(t.partitions, taken),
        t.header.first_usable_lba > 0,
        t.header.last_usable_lba < u64::MAX,
        b.to_multiset() == bounds_of(t, taken).to_multiset(),
        forall|i: int, j: int| 0 <= i < j < b.len() ==> #[trigger] b[i] <= #[trigger] b[j],
    ensures
        b.len() == 2 * taken.len() + 2,
        free::can_search(t) <==> t.align > 0 && (forall|k: int, start: int|
            0 <= k <= taken.len() && #[trigger] is_next_multiple(
                b[2 * k] as int,
                t.align as int,
                start,
            ) ==> b[2 * k] < b[2 * k + 1] && (b[2 * k] + 1 < b[2 * k + 1] ==> start <= u64::MAX)),
        free::can_search(t) ==> {
            &&& forall|k: int, start: int|
                0 <= k <= taken.len() && #[trigger] is_next_multiple(
                    b[2 * k] as int,
                    t.align as int,
                    start,
                ) && start < b[2 * k + 1] ==> is_found(
                    free::free_spots(t),
                    start,
                    b[2 * k + 1] - start,
                )
            &&& forall|i: int|
                0 <= i < free::free_spots(t).len() ==> is_between(
                    b,
                    t.align as int,
                    #[trigger] free::free_spots(t)[i],
                )
            &&& forall|i: int, j: int|
                0 <= i < j < free::free_spots(t).len() ==> (#[trigger] free::free_spots(t)[i]).0
                    + free::free_spots(t)[i].1 <= (#[trigger] free::free_spots(t)[j]).0
        },
{
    lemma_search_uses(t, taken, b);
    let n = b.len() / 2;
    assert(n == taken.len() + 1);
    assert(b == free::sorted_bounds(t));
    let align = t.align as int;
    if align > 0 {
        assert forall|k: int, start: int|
            #[trigger] is_next_multiple(b[2 * k] as int, align, start) implies start
            == free::align_up(b[2 * k] + 1, align) by {
            lemma_next_multiple(b[2 * k] as int, align, start);
        }
    }
    if free::can_search(t) {
        assert forall|k: int, start: int|
            0 <= k <= taken.len() && #[trigger] is_next_multiple(
                b[2 * k] as int,
                align,
                start,
            ) implies b[2 * k] < b[2 * k + 1] && (b[2 * k] + 1 < b[2 * k + 1] ==> start
            <= u64::MAX) by {
            assert(free::is_gap(b[2 * k], b[2 * k + 1], t.align));
        }
        assert forall|k: int, start: int|
            0 <= k <= taken.len() && #[trigger] is_next_multiple(b[2 * k] as int, align, start)
                && start < b[2 * k + 1] implies is_found(
            free::free_spots(t),
            start,
            b[2 * k + 1] - start,
        ) by {
            layout::lemma_gap_has_spot(b, t.align, n, k);
            let i = choose|i: int|
                0 <= i < free::gap_spots(b, t.align, n).len() && Some(
                    #[trigger] free::gap_spots(b, t.align, n)[i],
                ) == free::gap_spot(b[2 * k], b[2 * k + 1], t.align);
            assert(free::free_spots(t)[i].0 == start);
        }
        assert forall|i: int| 0 <= i < free::free_spots(t).len() implies is_between(
            b,
            align,
            #[trigger] free::free_spots(t)[i],
        ) by {
            let spot = free::free_spots(t)[i];
            free::lemma_free_spot(t, i);
            let k = choose|k: int|
                0 <= k < n && free::gap_spot(#[trigger] b[2 * k], b[2 * k + 1], t.align) == Some(
                    spot,
                );
            free::lemma_align_up(b[2 * k] + 1, align);
            assert(is_next_multiple(b[2 * k] as int, align, spot.0 as int));
        }
        assert forall|i: int, j: int| 0 <= i < j < free::free_spots(t).len() implies (
        #[trigger] free::free_spots(t)[i]).0 + free::free_spots(t)[i].1 <= (
        #[trigger] free::free_spots(t)[j]).0 by {
            layout::law_spots_ascend(t, i, j);
        }
    } else if align > 0 {
        assert(!free::are_gaps(b, t.align));
        let k = choose|k: int|
            0 <= k < n && !free::is_gap(#[trigger] b[2 * k], b[2 * k + 1], t.align);
        let start = free::align_up(b[2 * k] + 1, align);
        free::lemma_align_up(b[2 * k] + 1, align);
        assert(is_next_multiple(b[2 * k] as int, align, start));
    }
}

/// Whether a spot goes from the first multiple of `align` behind an even bound to the next bound.
pub open spec fn is_between(b: Seq<u64>, align: int, spot: (u64, u64)) -> bool {
    exists|k: int|
        {
            &&& 0 <= 2 * k < b.len() - 1
            &&& #[trigger] is_next_multiple(b[2 * k] as int, align, spot.0 as int)
            &&& spot.0 + spot.1 == b[2 * k + 1]
            &&& spot.1 > 0
        }
}

proof fn lemma_next_multiple(low: int, align: int, start: int)
    requires
        align > 0,
        is_next_multiple(low, align, start),
    ensures
        start == free::align_up(low + 1, align),
{
    free::lemma_align_up(low + 1, align);
    let up = free::align_up(low + 1, align);
    assert(start % align == 0);
    assert(up <= start);
    if up < start {
        lemma_multiples_apart(up, start, align);
    }
}

proof fn lemma_search_uses(t: TableModel, taken: Seq<int>, b: Seq<u64>)
    requires
        meaning::have_guids(t.partitions),
        are_all_taken(t.partitions, taken),
        b.to_multiset() == bounds_of(t, taken).to_multiset(),
        forall|i: int, j: int| 0 <= i < j < b.len() ==> #[trigger] b[i] <= #[trigger] b[j],
    ensures
        b == free::sorted_bounds(t),
        b.len() == 2 * taken.len() + 2,
{
    let p = bounds_of(t, taken);
    let used = free::used_bounds(t.partitions);
    lemma_bounds_of(t.partitions, taken);
    assert forall|k: int| 0 <= k < p.len() implies p[k] == free::bounds(t)[k] by {
        if 0 < k < 2 * taken.len() + 1 {
            let m = (k - 1) / 2;
            assert(used[2 * m] == t.partitions[taken[m]].starting_lba);
            assert(used[2 * m + 1] == t.partitions[taken[m]].ending_lba);
            assert(k == 2 * m + 1 || k == 2 * m + 2);
        }
    }
    assert(p =~= free::bounds(t));
    free::lemma_numbers_order();
    order::lemma_sort_by(free::bounds(t), order::less_than());
    let s = free::sorted_bounds(t);
    let leq = |x: u64, y: u64| x <= y;
    assert(vstd::relations::sorted_by(b, leq)) by {
        assert forall|i: int, j: int| 0 <= i < j < b.len() implies #[trigger] leq(b[i], b[j]) by {}
    }
    assert(vstd::relations::sorted_by(s, leq)) by {
        assert forall|i: int, j: int| 0 <= i < j < s.len() implies #[trigger] leq(s[i], s[j]) by {
            assert(!order::less_than()(s[j], s[i]));
        }
    }
    vstd::seq_lib::lemma_sorted_unique(b, s, leq);
}

/// There is no search with an alignment of zero, or where the sector before the first usable one or
/// the sector after the last usable one has no number.
pub proof fn law_no_search(t: TableModel)
    ensures
        t.align == 0 || t.header.first_usable_lba == 0 || t.header.last_usable_lba == u64::MAX
            ==> !free::can_search(t),
{
}

/// The first place for a partition in any table that can be searched is the start of the first spot
/// with as many sectors as it needs.
pub proof fn law_first_spot(t: TableModel, size: u64, found: Option<u64>)
    requires
        free::can_search(t),
        free::is_first_place(t, size, found),
    ensures
        ({
            let spots = free::free_spots(t);
            match found {
                Some(p) => exists|k: int|
                    {
                        &&& 0 <= k < spots.len()
                        &&& (#[trigger] spots[k]).0 == p
                        &&& spots[k].1 >= size
                        &&& forall|j: int| 0 <= j < k ==> (#[trigger] spots[j]).1 < size
                    },
                None => forall|j: int| 0 <= j < spots.len() ==> (#[trigger] spots[j]).1 < size,
            }
        }),
{
    let spots = free::free_spots(t);
    if let Some(p) = found {
        let k = choose|k: int| #[trigger] free::is_first_fit(spots, size, k) && p == spots[k].0;
        assert(spots[k].0 == p);
    }
}

/// The last place for a partition in any table that can be searched is the last multiple of the
/// alignment from which it fits into the last spot with as many sectors as it needs.
pub proof fn law_last_spot(t: TableModel, size: u64, found: Option<u64>)
    requires
        free::can_search(t),
        free::is_last_place(t, size, found),
    ensures
        ({
            let spots = free::free_spots(t);
            match found {
                Some(p) => exists|k: int|
                    {
                        &&& 0 <= k < spots.len()
                        &&& (#[trigger] spots[k]).1 >= size
                        &&& p as int % (t.align as int) == 0
                        &&& spots[k].0 <= p
                        &&& p + size <= spots[k].0 + spots[k].1 < p + size + t.align
                        &&& forall|j: int| k < j < spots.len() ==> (#[trigger] spots[j]).1 < size
                    },
                None => forall|j: int| 0 <= j < spots.len() ==> (#[trigger] spots[j]).1 < size,
            }
        }),
{
    let spots = free::free_spots(t);
    if let Some(p) = found {
        let k = choose|k: int|
            #[trigger] free::is_last_fit(spots, size, k) && p == free::align_down(
                spots[k].0 + spots[k].1 - size,
                t.align as int,
            );
        free::lemma_free_spot(t, k);
        free::lemma_align_down(spots[k].0 + spots[k].1 - size, t.align as int);
        assert(spots[k].0 as int % (t.align as int) == 0);
        assert(spots[k].1 >= size);
    }
}

/// The optimal place for a partition in any table that can be searched is the start of the first
/// one of the smallest spots with as many sectors as it needs.
pub proof fn law_tightest_spot(t: TableModel, size: u64, found: Option<u64>)
    requires
        free::can_search(t),
        free::is_optimal_place(t, size, found),
    ensures
        ({
            let spots = free::free_spots(t);
            match found {
                Some(p) => exists|k: int|
                    {
                        &&& 0 <= k < spots.len()
                        &&& (#[trigger] spots[k]).0 == p
                        &&& spots[k].1 >= size
                        &&& forall|j: int|
                            0 <= j < spots.len() && (#[trigger] spots[j]).1 >= size ==> spots[k].1
                                < spots[j].1 || (spots[k].1 == spots[j].1 && k <= j)
                    },
                None => forall|j: int| 0 <= j < spots.len() ==> (#[trigger] spots[j]).1 < size,
            }
        }),
{
    let spots = free::free_spots(t);
    if let Some(p) = found {
        let k = choose|k: int| #[trigger] free::is_tightest(spots, size, k) && p == spots[k].0;
        assert(spots[k].0 == p);
    }
}

/// The maximum size of a partition in any table that can be searched is a multiple of the alignment
/// that is in one of the spots, and the next multiple is in none.
pub proof fn law_largest_spot(t: TableModel, max: u64)
    requires
        free::can_search(t),
        free::is_maximum_size(t, max),
    ensures
        ({
            let spots = free::free_spots(t);
            &&& max as int % (t.align as int) == 0
            &&& exists|k: int| 0 <= k < spots.len() && (#[trigger] spots[k]).1 >= max
            &&& forall|j: int| 0 <= j < spots.len() ==> (#[trigger] spots[j]).1 < max + t.align
        }),
{
    let spots = free::free_spots(t);
    let align = t.align as int;
    let k = choose|k: int|
        0 <= k < spots.len() && max == free::align_down((#[trigger] spots[k]).1 as int, align);
    free::lemma_align_down(spots[k].1 as int, align);
    assert(spots[k].1 >= max);
    assert forall|j: int| 0 <= j < spots.len() implies (#[trigger] spots[j]).1 < max + t.align by {
        free::lemma_align_down(spots[j].1 as int, align);
    }
}

/// No sector of a partition is in a spot that is found, in a tidy table.
pub proof fn law_partitions_are_left_alone(t: TableModel, i: int, k: int, x: int)
    requires
        is_tidy(t),
        0 <= i < free::free_spots(t).len(),
        0 <= k < t.partitions.len(),
        meaning::is_taken(t.partitions[k]),
        t.partitions[k].starting_lba <= x <= t.partitions[k].ending_lba,
    ensures
        !(free::free_spots(t)[i].0 <= x < free::free_spots(t)[i].0 + free::free_spots(t)[i].1),
{
    let spot = free::free_spots(t)[i];
    lemma_spot_is_whole(t, i);
    if spot.0 <= x < spot.0 + spot.1 {
        assert(is_open(t, x));
        assert(is_occupied(t, x));
    }
}

} // verus!
