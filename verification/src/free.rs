//! The search for free space between the partitions of a table.

use vstd::prelude::*;
use crate::error::Error;
use crate::order;
use crate::partition;
use crate::partition::EntryModel;
use crate::space;
use crate::table::{GPT, TableModel};

verus! {

/// The first and the last LBA of each entry that is used, in order.
pub open spec fn used_bounds(entries: Seq<EntryModel>) -> Seq<u64>
    decreases entries.len(),
{
    if entries.len() == 0 {
        Seq::empty()
    } else {
        let front = used_bounds(entries.drop_last());
        if partition::is_used_entry(entries.last()) {
            front.push(entries.last().starting_lba).push(entries.last().ending_lba)
        } else {
            front
        }
    }
}

/// The LBAs next to which free space can begin or end: the one before the first usable sector,
/// those of the partitions, and the one after the last usable sector.
pub open spec fn bounds(t: TableModel) -> Seq<u64> {
    seq![(t.header.first_usable_lba - 1) as u64] + used_bounds(t.partitions) + seq![
        (t.header.last_usable_lba + 1) as u64,
    ]
}

/// The bounds of a table from the left to the right. Those at an even place come before a gap,
/// those at an odd place after one.
pub open spec fn sorted_bounds(t: TableModel) -> Seq<u64> {
    order::sort_by(bounds(t), order::less_than())
}

/// The first multiple of `align` from `x` on.
pub open spec fn align_up(x: int, align: int) -> int {
    ((x - 1) / align + 1) * align
}

/// The last multiple of `align` up to `x`.
pub open spec fn align_down(x: int, align: int) -> int {
    x / align * align
}

/// The free spot between two bounds, as its first sector and its size, if there is one: it
/// starts at a multiple of `align` and goes on up to the second bound.
pub open spec fn gap_spot(low: u64, high: u64, align: u64) -> Option<(u64, u64)> {
    let start = align_up(low + 1, align as int);
    if low + 1 < high && start < high {
        Some((start as u64, (high - start) as u64))
    } else {
        None
    }
}

/// The free spots in the first `n` gaps between some bounds.
pub open spec fn gap_spots(b: Seq<u64>, align: u64, n: nat) -> Seq<(u64, u64)>
    decreases n,
{
    if n == 0 {
        Seq::empty()
    } else {
        let front = gap_spots(b, align, (n - 1) as nat);
        match gap_spot(b[2 * n - 2], b[2 * n - 1], align) {
            Some(spot) => front.push(spot),
            None => front,
        }
    }
}

/// The free spots of a table, from the left to the right.
pub open spec fn free_spots(t: TableModel) -> Seq<(u64, u64)> {
    gap_spots(sorted_bounds(t), t.align, sorted_bounds(t).len() / 2)
}

/// Whether the gaps between some bounds can be searched: the bounds of each differ, and the first
/// multiple of `align` in it is not too large.
pub open spec fn are_gaps(b: Seq<u64>, align: u64) -> bool {
    forall|k: int|
        0 <= k < b.len() / 2 ==> is_gap(#[trigger] b[2 * k], b[2 * k + 1], align)
}

/// Whether the gap between two bounds can be searched.
pub open spec fn is_gap(low: u64, high: u64, align: u64) -> bool {
    low < high && (low + 1 < high ==> align_up(low + 1, align as int) <= u64::MAX)
}

/// Whether the free spots of a table can be searched.
pub open spec fn can_search(t: TableModel) -> bool {
    &&& t.align > 0
    &&& t.header.first_usable_lba > 0
    &&& t.header.last_usable_lba < u64::MAX
    &&& are_gaps(sorted_bounds(t), t.align)
}

/// Whether all of some spots have less than `size` sectors.
pub open spec fn none_fits(spots: Seq<(u64, u64)>, size: u64) -> bool {
    forall|j: int| 0 <= j < spots.len() ==> (#[trigger] spots[j]).1 < size
}

/// Whether spot number `k` is the first one that has `size` sectors.
pub open spec fn is_first_fit(spots: Seq<(u64, u64)>, size: u64, k: int) -> bool {
    &&& 0 <= k < spots.len()
    &&& size <= spots[k].1
    &&& forall|j: int| 0 <= j < k ==> (#[trigger] spots[j]).1 < size
}

/// Whether spot number `k` is the last one that has `size` sectors.
pub open spec fn is_last_fit(spots: Seq<(u64, u64)>, size: u64, k: int) -> bool {
    &&& 0 <= k < spots.len()
    &&& size <= spots[k].1
    &&& forall|j: int| k < j < spots.len() ==> (#[trigger] spots[j]).1 < size
}

/// Whether spot number `k` is the first of the smallest ones that have `size` sectors.
pub open spec fn is_tightest(spots: Seq<(u64, u64)>, size: u64, k: int) -> bool {
    &&& 0 <= k < spots.len()
    &&& size <= spots[k].1
    &&& forall|j: int|
        0 <= j < spots.len() && size <= (#[trigger] spots[j]).1 ==> spots[k].1 <= spots[j].1
    &&& forall|j: int| 0 <= j < k && size <= (#[trigger] spots[j]).1 ==> spots[k].1 < spots[j].1
}

/// What is found most on the left: the start of the first spot that has room, if there is one.
pub open spec fn is_first_place(t: TableModel, size: u64, found: Option<u64>) -> bool {
    let spots = free_spots(t);
    match found {
        Some(place) => exists|k: int|
            #[trigger] is_first_fit(spots, size, k) && place == spots[k].0,
        None => none_fits(spots, size),
    }
}

/// What is found most on the right: the last place that is aligned in the last spot that has
/// room, if there is one.
pub open spec fn is_last_place(t: TableModel, size: u64, found: Option<u64>) -> bool {
    let spots = free_spots(t);
    match found {
        Some(place) => exists|k: int|
            #[trigger] is_last_fit(spots, size, k) && place == align_down(
                spots[k].0 + spots[k].1 - size,
                t.align as int,
            ),
        None => none_fits(spots, size),
    }
}

/// What is found in the smallest free space: the start of the smallest spot that has room, if
/// there is one, and of the first one of these, if there are several.
pub open spec fn is_optimal_place(t: TableModel, size: u64, found: Option<u64>) -> bool {
    let spots = free_spots(t);
    match found {
        Some(place) => exists|k: int|
            #[trigger] is_tightest(spots, size, k) && place == spots[k].0,
        None => none_fits(spots, size),
    }
}

/// Whether `size` is the largest of the sizes of the spots, rounded down to the alignment.
pub open spec fn is_maximum_size(t: TableModel, size: u64) -> bool {
    let spots = free_spots(t);
    let align = t.align as int;
    &&& exists|k: int|
        0 <= k < spots.len() && size == align_down((#[trigger] spots[k]).1 as int, align)
    &&& forall|j: int|
        0 <= j < spots.len() ==> align_down((#[trigger] spots[j]).1 as int, align) <= size
}

/// The first multiple from a number on is one, and no more than `align - 1` away.
pub proof fn lemma_align_up(x: int, align: int)
    requires
        align > 0,
    ensures
        x <= align_up(x, align) < x + align,
        align_up(x, align) % align == 0,
        forall|y: int| #![trigger y % align] x <= y && y % align == 0 ==> align_up(x, align) <= y,
{
    let q = (x - 1) / align;
    vstd::arithmetic::div_mod::lemma_fundamental_div_mod(x - 1, align);
    vstd::arithmetic::div_mod::lemma_mod_bound(x - 1, align);
    assert((q + 1) * align == align * q + align) by (nonlinear_arith);
    vstd::arithmetic::div_mod::lemma_mod_multiples_basic(q + 1, align);
    assert forall|y: int| #![trigger y % align] x <= y && y % align == 0 implies align_up(x, align)
        <= y by {
        let p = y / align;
        vstd::arithmetic::div_mod::lemma_fundamental_div_mod(y, align);
        if p <= q {
            assert(align * p <= align * q) by (nonlinear_arith)
                requires
                    p <= q,
                    align > 0,
            ;
        } else {
            assert(align * (q + 1) <= align * p) by (nonlinear_arith)
                requires
                    q + 1 <= p,
                    align > 0,
            ;
            assert((q + 1) * align == align * (q + 1)) by (nonlinear_arith);
        }
    }
}

/// The last multiple up to a number is one, and less than `align` away.
pub proof fn lemma_align_down(x: int, align: int)
    requires
        align > 0,
        x >= 0,
    ensures
        0 <= align_down(x, align) <= x < align_down(x, align) + align,
        align_down(x, align) % align == 0,
        forall|y: int|
            #![trigger y % align]
            y <= x && y % align == 0 ==> y <= align_down(x, align),
{
    let q = x / align;
    vstd::arithmetic::div_mod::lemma_fundamental_div_mod(x, align);
    vstd::arithmetic::div_mod::lemma_mod_bound(x, align);
    assert(q * align == align * q) by (nonlinear_arith);
    assert(q >= 0) by (nonlinear_arith)
        requires
            x >= 0,
            align > 0,
            q == x / align,
    ;
    assert(0 <= align * q) by (nonlinear_arith)
        requires
            q >= 0,
            align > 0,
    ;
    vstd::arithmetic::div_mod::lemma_mod_multiples_basic(q, align);
    assert forall|y: int| #![trigger y % align] y <= x && y % align == 0 implies y <= align_down(
        x,
        align,
    ) by {
        let p = y / align;
        vstd::arithmetic::div_mod::lemma_fundamental_div_mod(y, align);
        if p > q {
            assert(align * (q + 1) <= align * p) by (nonlinear_arith)
                requires
                    q + 1 <= p,
                    align > 0,
            ;
            assert(align * (q + 1) == align * q + align) by (nonlinear_arith);
        } else {
            assert(align * p <= align * q) by (nonlinear_arith)
                requires
                    p <= q,
                    align > 0,
            ;
        }
    }
}

pub proof fn lemma_used_bounds_len(entries: Seq<EntryModel>)
    ensures
        used_bounds(entries).len() % 2 == 0,
        used_bounds(entries).len() <= 2 * entries.len(),
    decreases entries.len(),
{
    if entries.len() > 0 {
        lemma_used_bounds_len(entries.drop_last());
    }
}

pub proof fn lemma_numbers_order()
    ensures
        order::is_weak_order(order::less_than()),
{
}

/// Every free spot is the one of some gap.
pub proof fn lemma_gap_spots(b: Seq<u64>, align: u64, n: nat)
    ensures
        gap_spots(b, align, n).len() <= n,
        forall|i: int|
            0 <= i < gap_spots(b, align, n).len() ==> #[trigger] has_gap(
                b,
                align,
                n,
                gap_spots(b, align, n)[i],
            ),
    decreases n,
{
    if n > 0 {
        let m = (n - 1) as nat;
        let front = gap_spots(b, align, m);
        let r = gap_spots(b, align, n);
        lemma_gap_spots(b, align, m);
        assert forall|i: int| 0 <= i < r.len() implies #[trigger] has_gap(b, align, n, r[i]) by {
            if i < front.len() {
                assert(has_gap(b, align, m, front[i]));
                let k = choose|k: int|
                    0 <= k < m && gap_spot(#[trigger] b[2 * k], b[2 * k + 1], align) == Some(
                        front[i],
                    );
                assert(gap_spot(b[2 * k], b[2 * k + 1], align) == Some(r[i]));
            } else {
                assert(gap_spot(b[2 * (m as int)], b[2 * (m as int) + 1], align) == Some(r[i]));
            }
        }
    }
}

/// Whether a spot is the one of one of the first `n` gaps.
pub open spec fn has_gap(b: Seq<u64>, align: u64, n: nat, spot: (u64, u64)) -> bool {
    exists|k: int|
        0 <= k < n && gap_spot(#[trigger] b[2 * k], b[2 * k + 1], align) == Some(spot)
}

/// A free spot has a sector at least, starts at a multiple of the alignment, and its end is a
/// number that there is.
pub proof fn lemma_free_spot(t: TableModel, i: int)
    requires
        can_search(t),
        0 <= i < free_spots(t).len(),
    ensures
        free_spots(t)[i].1 > 0,
        free_spots(t)[i].0 + free_spots(t)[i].1 <= u64::MAX,
        free_spots(t)[i].0 as int % (t.align as int) == 0,
        has_gap(sorted_bounds(t), t.align, sorted_bounds(t).len() / 2, free_spots(t)[i]),
{
    let b = sorted_bounds(t);
    let n = b.len() / 2;
    let spot = free_spots(t)[i];
    lemma_gap_spots(b, t.align, n);
    assert(has_gap(b, t.align, n, gap_spots(b, t.align, n)[i]));
    let k = choose|k: int|
        0 <= k < n && gap_spot(#[trigger] b[2 * k], b[2 * k + 1], t.align) == Some(spot);
    assert(is_gap(b[2 * k], b[2 * k + 1], t.align));
    lemma_align_up(b[2 * k] + 1, t.align as int);
}

impl GPT {
    /// The LBAs next to which free space can begin or end, from the left to the right.
    fn positions(&self) -> (r: Vec<u64>)
        requires
            self@.header.first_usable_lba > 0,
            self@.header.last_usable_lba < u64::MAX,
        ensures
            r@ == sorted_bounds(self@),
    {
        let ghost t = self@;
        let mut positions: Vec<u64> = Vec::new();
        positions.push(self.header.first_usable_lba - 1);
        let mut i: usize = 0;
        assert(t.partitions.take(0).len() == 0);
        assert(positions@ =~= seq![(t.header.first_usable_lba - 1) as u64] + used_bounds(
            t.partitions.take(0),
        ));
        while i < self.partitions.len()
            invariant
                i <= self.partitions@.len(),
                t == self@,
                positions@ == seq![(t.header.first_usable_lba - 1) as u64] + used_bounds(
                    t.partitions.take(i as int),
                ),
            decreases self.partitions@.len() - i,
        {
            assert(t.partitions.take(i + 1).drop_last() =~= t.partitions.take(i as int));
            assert(t.partitions.take(i + 1).last() == self.partitions@[i as int]@);
            if self.partitions[i].is_used() {
                positions.push(self.partitions[i].starting_lba);
                positions.push(self.partitions[i].ending_lba);
            }
            assert(positions@ =~= seq![(t.header.first_usable_lba - 1) as u64] + used_bounds(
                t.partitions.take(i + 1),
            ));
            i = i + 1;
        }
        assert(t.partitions.take(i as int) =~= t.partitions);
        positions.push(self.header.last_usable_lba + 1);
        assert(positions@ =~= bounds(t));
        order::sort_numbers(&positions)
    }

    /// Whether free spots can be searched: the alignment is greater than 0, the bounds of every
    /// gap differ, and no position is too large.
    pub fn can_search(&self) -> (r: bool)
        ensures
            r == can_search(self@),
    {
        if self.align == 0 || self.header.first_usable_lba == 0 || self.header.last_usable_lba
            == u64::MAX {
            return false;
        }
        let sorted = self.positions();
        let ghost b = sorted_bounds(self@);
        let align: u64 = self.align;
        let gaps: usize = sorted.len() / 2;
        let mut k: usize = 0;
        while k < gaps
            invariant
                k <= gaps,
                gaps == b.len() / 2,
                b.len() <= usize::MAX,
                sorted@ == b,
                b == sorted_bounds(self@),
                align == self@.align,
                align > 0,
                forall|j: int| 0 <= j < k ==> is_gap(#[trigger] b[2 * j], b[2 * j + 1], align),
            decreases gaps - k,
        {
            let low: u64 = sorted[2 * k];
            let high: u64 = sorted[2 * k + 1];
            if low >= high {
                assert(!is_gap(b[2 * (k as int)], b[2 * (k as int) + 1], align));
                return false;
            }
            if low + 1 < high {
                proof {
                    lemma_align_up(low + 1, align as int);
                    lemma_quotient_fits(low + 1, align as int);
                    lemma_quotient_bound(low as int, align as int);
                }
                if (low / align + 1).checked_mul(align).is_none() {
                    assert(!is_gap(b[2 * (k as int)], b[2 * (k as int) + 1], align));
                    return false;
                }
            }
            k = k + 1;
        }
        true
    }

    /// Finds free spots in the partition table.
    /// This function will return a vector of tuple with on the left: the starting LBA of the free
    /// spot; and on the right: the size (in sectors) of the free spot.
    /// This function will automatically align with the alignment defined in the `GPT`.
    pub fn find_free_sectors(&self) -> (r: Vec<(u64, u64)>)
        requires
            can_search(self@),
        ensures
            r@ == free_spots(self@),
            space::is_tidy(self@) ==> {
                &&& forall|i: int|
                    0 <= i < r@.len() ==> space::is_whole_spot(
                        self@,
                        (#[trigger] r@[i]).0 as int,
                        r@[i].1 as int,
                    )
                &&& forall|start: int, size: int|
                    #[trigger] space::is_whole_spot(self@, start, size) ==> space::is_found(
                        r@,
                        start,
                        size,
                    )
            },
    {
        let ghost t = self@;
        proof {
            if space::is_tidy(t) {
                space::law_spots(t);
            }
        }
        let sorted = self.positions();
        let ghost b = sorted_bounds(t);
        proof {
            lemma_used_bounds_len(t.partitions);
            lemma_numbers_order();
            order::lemma_sort_by(bounds(t), order::less_than());
        }
        let mut spots: Vec<(u64, u64)> = Vec::new();
        let gaps: usize = sorted.len() / 2;
        let mut k: usize = 0;
        while k < gaps
            invariant
                k <= gaps,
                gaps == b.len() / 2,
                b.len() <= usize::MAX,
                t == self@,
                sorted@ == b,
                b == sorted_bounds(t),
                can_search(t),
                spots@ == gap_spots(b, t.align, k as nat),
            decreases gaps - k,
        {
            let low: u64 = sorted[2 * k];
            let high: u64 = sorted[2 * k + 1];
            assert(is_gap(b[2 * k as int], b[2 * k as int + 1], t.align));
            let start: u64 = low + 1;
            let size: u64 = high - low - 1;
            if size > 0 {
                proof {
                    lemma_align_up(start as int, t.align as int);
                    lemma_quotient_fits(start as int, t.align as int);
                }
                let shift: u64 = ((start - 1) / self.align + 1) * self.align - start;
                let rest: u64 = size.saturating_sub(shift);
                if rest > 0 {
                    spots.push((start + shift, rest));
                }
            }
            k = k + 1;
        }
        spots
    }

    /// Finds the first place (most on the left) where you could start a new partition of the size
    /// given in parameter.
    /// This function will automatically align with the alignment defined in the `GPT`.
    pub fn find_first_place(&self, size: u64) -> (r: Option<u64>)
        requires
            can_search(self@),
        ensures
            is_first_place(self@, size, r),
            space::is_tidy(self@) && size > 0 ==> match r {
                Some(p) => space::has_place_at(self@, p as int, size) && (forall|q: int|
                    #[trigger] space::has_place_at(self@, q, size) ==> p <= q),
                None => forall|q: int| !#[trigger] space::has_place_at(self@, q, size),
            },
    {
        let spots = self.find_free_sectors();
        let mut i: usize = 0;
        while i < spots.len()
            invariant
                i <= spots@.len(),
                spots@ == free_spots(self@),
                forall|j: int| 0 <= j < i ==> (#[trigger] free_spots(self@)[j]).1 < size,
            decreases spots@.len() - i,
        {
            if spots[i].1 >= size {
                proof {
                    assert(is_first_fit(free_spots(self@), size, i as int));
                    if space::is_tidy(self@) && size > 0 {
                        space::law_leftmost_place(self@, size, Some(spots@[i as int].0));
                    }
                }
                return Some(spots[i].0);
            }
            i = i + 1;
        }
        proof {
            if space::is_tidy(self@) && size > 0 {
                space::law_leftmost_place(self@, size, None);
            }
        }
        None
    }

    /// Finds the last place (most on the right) where you could start a new partition of the size
    /// given in parameter.
    /// This function will automatically align with the alignment defined in the `GPT`.
    pub fn find_last_place(&self, size: u64) -> (r: Option<u64>)
        requires
            can_search(self@),
        ensures
            is_last_place(self@, size, r),
            space::is_tidy(self@) && size > 0 ==> match r {
                Some(p) => space::has_place_at(self@, p as int, size) && (forall|q: int|
                    #[trigger] space::has_place_at(self@, q, size) ==> q <= p),
                None => forall|q: int| !#[trigger] space::has_place_at(self@, q, size),
            },
    {
        let spots = self.find_free_sectors();
        let mut i: usize = spots.len();
        while i > 0
            invariant
                i <= spots@.len(),
                spots@ == free_spots(self@),
                can_search(self@),
                forall|j: int|
                    i <= j < spots@.len() ==> (#[trigger] free_spots(self@)[j]).1 < size,
            decreases i,
        {
            i = i - 1;
            if spots[i].1 >= size {
                let (start, len) = spots[i];
                proof {
                    assert(is_last_fit(free_spots(self@), size, i as int));
                    lemma_free_spot(self@, i as int);
                    lemma_align_down(start + len - size, self@.align as int);
                }
                let place: u64 = (start + len - size) / self.align * self.align;
                proof {
                    if space::is_tidy(self@) && size > 0 {
                        space::law_rightmost_place(self@, size, Some(place));
                    }
                }
                return Some(place);
            }
        }
        proof {
            if space::is_tidy(self@) && size > 0 {
                space::law_rightmost_place(self@, size, None);
            }
        }
        None
    }

    /// Finds the most optimal place (in the smallest free space) where you could start a new
    /// partition of the size given in parameter.
    /// This function will automatically align with the alignment defined in the `GPT`.
    pub fn find_optimal_place(&self, size: u64) -> (r: Option<u64>)
        requires
            can_search(self@),
        ensures
            is_optimal_place(self@, size, r),
            space::is_tidy(self@) && size > 0 ==> match r {
                Some(p) => space::has_place_at(self@, p as int, size) && (exists|room: int|
                    room >= size && #[trigger] space::is_whole_spot(self@, p as int, room) && (
                    forall|q: int, other: int|
                        other >= size && #[trigger] space::is_whole_spot(self@, q, other) ==> room
                            < other || (room == other && p <= q))),
                None => forall|q: int| !#[trigger] space::has_place_at(self@, q, size),
            },
    {
        let spots = self.find_free_sectors();
        let ghost all = free_spots(self@);
        let mut best: Option<usize> = None;
        let mut i: usize = 0;
        while i < spots.len()
            invariant
                i <= spots@.len(),
                spots@ == all,
                match best {
                    Some(k) => k < i && size <= all[k as int].1 && (forall|j: int|
                        0 <= j < i && size <= (#[trigger] all[j]).1 ==> all[k as int].1 <= all[j].1)
                        && (forall|j: int|
                        0 <= j < k && size <= (#[trigger] all[j]).1 ==> all[k as int].1
                            < all[j].1),
                    None => forall|j: int| 0 <= j < i ==> (#[trigger] all[j]).1 < size,
                },
            decreases spots@.len() - i,
        {
            if spots[i].1 >= size {
                match best {
                    Some(k) => {
                        if spots[i].1 < spots[k].1 {
                            best = Some(i);
                        }
                    },
                    None => {
                        best = Some(i);
                    },
                }
            }
            i = i + 1;
        }
        match best {
            Some(k) => {
                proof {
                    assert(is_tightest(all, size, k as int));
                    if space::is_tidy(self@) && size > 0 {
                        space::law_tightest_place(self@, size, Some(spots@[k as int].0));
                    }
                }
                Some(spots[k].0)
            },
            None => {
                proof {
                    if space::is_tidy(self@) && size > 0 {
                        space::law_tightest_place(self@, size, None);
                    }
                }
                None
            },
        }
    }

    /// Gets the maximum size (in sectors) of a partition you could create in the GPT.
    /// This function will automatically align with the alignment defined in the `GPT`.
    ///
    /// # Errors
    /// This function will return an error if there is no free spot.
    pub fn get_maximum_partition_size(&self) -> (r: Result<u64, Error>)
        requires
            can_search(self@),
        ensures
            match r {
                Ok(size) => is_maximum_size(self@, size),
                Err(e) => free_spots(self@).len() == 0 && e == Error::NoSpaceLeft,
            },
            space::is_tidy(self@) ==> match r {
                Ok(max) => {
                    &&& max as int % (self@.align as int) == 0
                    &&& max > 0 ==> exists|p: int| #[trigger] space::has_place_at(self@, p, max)
                    &&& forall|p: int, size: u64|
                        size > max && size as int % (self@.align as int) == 0
                            ==> !#[trigger] space::has_place_at(self@, p, size)
                },
                Err(_) => forall|p: int| !#[trigger] space::has_place_at(self@, p, 1),
            },
    {
        let spots = self.find_free_sectors();
        proof {
            if space::is_tidy(self@) {
                space::law_no_space(self@);
            }
        }
        if spots.len() == 0 {
            return Err(Error::NoSpaceLeft);
        }
        let ghost all = free_spots(self@);
        let ghost align = self@.align as int;
        let mut max: u64 = 0;
        let mut i: usize = 0;
        while i < spots.len()
            invariant
                i <= spots@.len(),
                spots@ == all,
                all == free_spots(self@),
                align == self@.align,
                align > 0,
                i > 0 ==> exists|k: int|
                    0 <= k < i && max == align_down((#[trigger] all[k]).1 as int, align),
                forall|j: int|
                    0 <= j < i ==> align_down((#[trigger] all[j]).1 as int, align) <= max,
            decreases spots@.len() - i,
        {
            proof {
                lemma_align_down(all[i as int].1 as int, align);
            }
            let size: u64 = spots[i].1 / self.align * self.align;
            assert(size == align_down(all[i as int].1 as int, align));
            if i == 0 || max < size {
                max = size;
            }
            i = i + 1;
        }
        proof {
            if space::is_tidy(self@) {
                space::law_largest_size(self@, max);
            }
        }
        Ok(max)
    }
}

proof fn lemma_quotient_bound(x: int, align: int)
    requires
        align > 0,
        x >= 0,
    ensures
        0 <= x / align <= x,
{
    vstd::arithmetic::div_mod::lemma_div_pos_is_pos(x, align);
    vstd::arithmetic::div_mod::lemma_div_is_ordered_by_denominator(x, 1, align);
}

proof fn lemma_quotient_fits(x: int, align: int)
    requires
        align > 0,
        x >= 1,
    ensures
        0 <= (x - 1) / align,
        (x - 1) / align + 1 <= align_up(x, align),
{
    let q = (x - 1) / align;
    vstd::arithmetic::div_mod::lemma_div_pos_is_pos(x - 1, align);
    assert(q + 1 <= (q + 1) * align) by (nonlinear_arith)
        requires
            q >= 0,
            align > 0,
    ;
}

} // verus!
