//! Sets of ranks as 16-bit masks: bit `r` stands for the rank of value `r`.

use crate::card::Number;
use vstd::prelude::*;

verus! {

/// Whether bit `index` of `set` is set.
pub open spec fn bit(set: u16, index: u16) -> bool {
    (set >> index) & 1 == 1
}

/// Whether the rank of value `rank` is in `set`.
pub open spec fn has_rank(set: u16, rank: int) -> bool {
    0 <= rank < 16 && bit(set, rank as u16)
}

/// The number of ranks of `set` that lie in `low..high`.
pub open spec fn count_ranks(set: u16, low: int, high: int) -> nat
    decreases high - low,
{
    if high <= low {
        0
    } else {
        count_ranks(set, low, high - 1) + if has_rank(set, high - 1) {
            1nat
        } else {
            0nat
        }
    }
}

/// The number of ranks in `set`.
pub open spec fn rank_total(set: u16) -> nat {
    count_ranks(set, 0, 16)
}

/// Among the ranks below `bound`, those of `set` that have fewer than
/// `count` ranks of `set` above them.
pub open spec fn top_ranks_below(set: u16, count: nat, bound: int) -> u16
    decreases bound,
{
    if bound <= 0 {
        0
    } else {
        let rest = top_ranks_below(set, count, bound - 1);
        if has_rank(set, bound - 1) && count_ranks(set, bound, 16) < count {
            rest | (1u16 << ((bound - 1) as u16))
        } else {
            rest
        }
    }
}

/// The `count` highest ranks of `set`: those with fewer than `count` ranks
/// of `set` above them.
pub open spec fn top_ranks(set: u16, count: nat) -> u16 {
    top_ranks_below(set, count, 16)
}

/// The highest rank of `set` below `bound`, or 0 where there is none.
pub open spec fn highest_rank_below(set: u16, bound: int) -> int
    decreases bound,
{
    if bound <= 0 {
        0
    } else if has_rank(set, bound - 1) {
        bound - 1
    } else {
        highest_rank_below(set, bound - 1)
    }
}

/// The highest rank of `set`, or 0 for the empty set.
pub open spec fn highest_rank(set: u16) -> int {
    highest_rank_below(set, 16)
}

/// `set` without the rank of value `rank`.
pub open spec fn without_rank(set: u16, rank: int) -> u16 {
    set & !(1u16 << (rank as u16))
}

/// Whether `rank` can stand in a straight: it is in `set`, or it is the
/// place below the two and the ace is in `set`.
pub open spec fn has_straight_rank(set: u16, rank: int) -> bool {
    has_rank(set, rank) || (rank == 1 && has_rank(set, 14))
}

/// Whether the five ranks that end in `high` can all stand in a straight.
pub open spec fn is_run(set: u16, high: int) -> bool {
    &&& has_straight_rank(set, high - 4)
    &&& has_straight_rank(set, high - 3)
    &&& has_straight_rank(set, high - 2)
    &&& has_straight_rank(set, high - 1)
    &&& has_straight_rank(set, high)
}

/// The highest rank from the five up to `top` that ends a straight in `set`.
pub open spec fn straight_high_up_to(set: u16, top: int) -> Option<int>
    decreases top,
{
    if top < 5 {
        None
    } else if is_run(set, top) {
        Some(top)
    } else {
        straight_high_up_to(set, top - 1)
    }
}

/// The high card of the best straight in `set`, the ace counting both above
/// the king and below the two.
pub open spec fn straight_high(set: u16) -> Option<int> {
    straight_high_up_to(set, 14)
}

/// The rank whose value is `value`.
pub open spec fn number_of(value: int) -> Number {
    Number::spec_from_u8(value as u8)
}

/// The rank whose value is `value`, where there is one.
pub open spec fn number_of_option(value: Option<int>) -> Option<Number> {
    match value {
        Some(v) => Some(number_of(v)),
        None => None,
    }
}

/// Bit by bit: the union, a single bit, the removal of a bit, zero, and the
/// test of a bit.
proof fn lemma_bit_of_union(set: u16, other: u16, index: u16)
    requires
        index < 16,
    ensures
        bit(set | other, index) == (bit(set, index) || bit(other, index)),
{
    assert(index < 16 ==> (((set | other) >> index) & 1 == 1) == (((set >> index) & 1 == 1) || ((
    other >> index) & 1 == 1))) by (bit_vector);
}

proof fn lemma_bit_of_single(rank: u16, index: u16)
    requires
        rank < 16,
        index < 16,
    ensures
        bit(1u16 << rank, index) == (index == rank),
{
    assert(rank < 16 && index < 16 ==> ((((1u16 << rank) >> index) & 1 == 1) == (index == rank)))
        by (bit_vector);
}

proof fn lemma_bit_of_removal(set: u16, rank: u16, index: u16)
    requires
        rank < 16,
        index < 16,
    ensures
        bit(set & !(1u16 << rank), index) == (bit(set, index) && index != rank),
{
    assert(rank < 16 && index < 16 ==> ((((set & !(1u16 << rank)) >> index) & 1 == 1) == (((set
        >> index) & 1 == 1) && index != rank))) by (bit_vector);
}

proof fn lemma_bit_of_zero(index: u16)
    requires
        index < 16,
    ensures
        !bit(0, index),
{
    assert(index < 16 ==> !(((0u16 >> index) & 1) == 1)) by (bit_vector);
}

/// A bit is set exactly if masking it out leaves something.
pub proof fn lemma_bit_test(set: u16, rank: u16)
    requires
        rank < 16,
    ensures
        (set & (1u16 << rank) != 0) == bit(set, rank),
        (set >> rank) & 1 != 0 ==> bit(set, rank),
{
    assert(rank < 16 ==> ((set & (1u16 << rank) != 0) == ((set >> rank) & 1 == 1))) by (bit_vector);
    assert((set >> rank) & 1 != 0 ==> (set >> rank) & 1 == 1) by (bit_vector);
}

/// A window of five bits is full exactly if its five ranks are in the set.
pub proof fn lemma_window(set: u16, shift: u16)
    requires
        1 <= shift <= 10,
    ensures
        ((set & (0b11111u16 << shift)) >> shift == 0b11111) == (has_rank(set, shift as int)
            && has_rank(set, shift + 1) && has_rank(set, shift + 2) && has_rank(set, shift + 3)
            && has_rank(set, shift + 4)),
{
    assert(1 <= shift <= 10 ==> (((set & (0b11111u16 << shift)) >> shift == 0b11111) == (((set
        >> shift) & 1 == 1) && ((set >> ((shift + 1) as u16)) & 1 == 1) && ((set >> ((shift
        + 2) as u16)) & 1 == 1) && ((set >> ((shift + 3) as u16)) & 1 == 1) && ((set >> ((shift
        + 4) as u16)) & 1 == 1)))) by (bit_vector);
}

/// The ranks of a union are the ranks of its parts; a single bit holds its
/// own rank; removing a rank leaves the others; the empty set has no rank.
pub proof fn lemma_rank_algebra(set: u16, other: u16, rank: int)
    requires
        0 <= rank < 16,
    ensures
        forall|r: int| #[trigger] has_rank(set | other, r) == (has_rank(set, r) || has_rank(other, r)),
        forall|r: int| #[trigger] has_rank(1u16 << (rank as u16), r) == (r == rank),
        forall|r: int| #[trigger]
            has_rank(without_rank(set, rank), r) == (has_rank(set, r) && r != rank),
        forall|r: int| !#[trigger] has_rank(0, r),
{
    assert forall|r: int| #[trigger]
        has_rank(set | other, r) == (has_rank(set, r) || has_rank(other, r)) by {
        if 0 <= r < 16 {
            lemma_bit_of_union(set, other, r as u16);
        }
    }
    assert forall|r: int| #[trigger] has_rank(1u16 << (rank as u16), r) == (r == rank) by {
        if 0 <= r < 16 {
            lemma_bit_of_single(rank as u16, r as u16);
        }
    }
    assert forall|r: int| #[trigger]
        has_rank(without_rank(set, rank), r) == (has_rank(set, r) && r != rank) by {
        if 0 <= r < 16 {
            lemma_bit_of_removal(set, rank as u16, r as u16);
        }
    }
    assert forall|r: int| !#[trigger] has_rank(0, r) by {
        if 0 <= r < 16 {
            lemma_bit_of_zero(r as u16);
        }
    }
}

proof fn lemma_equal_by_bits(set: u16, other: u16)
    requires
        bit(set, 0) == bit(other, 0),
        bit(set, 1) == bit(other, 1),
        bit(set, 2) == bit(other, 2),
        bit(set, 3) == bit(other, 3),
        bit(set, 4) == bit(other, 4),
        bit(set, 5) == bit(other, 5),
        bit(set, 6) == bit(other, 6),
        bit(set, 7) == bit(other, 7),
        bit(set, 8) == bit(other, 8),
        bit(set, 9) == bit(other, 9),
        bit(set, 10) == bit(other, 10),
        bit(set, 11) == bit(other, 11),
        bit(set, 12) == bit(other, 12),
        bit(set, 13) == bit(other, 13),
        bit(set, 14) == bit(other, 14),
        bit(set, 15) == bit(other, 15),
    ensures
        set == other,
{
    assert(set == other) by (bit_vector)
        requires
            bit(set, 0) == bit(other, 0),
            bit(set, 1) == bit(other, 1),
            bit(set, 2) == bit(other, 2),
            bit(set, 3) == bit(other, 3),
            bit(set, 4) == bit(other, 4),
            bit(set, 5) == bit(other, 5),
            bit(set, 6) == bit(other, 6),
            bit(set, 7) == bit(other, 7),
            bit(set, 8) == bit(other, 8),
            bit(set, 9) == bit(other, 9),
            bit(set, 10) == bit(other, 10),
            bit(set, 11) == bit(other, 11),
            bit(set, 12) == bit(other, 12),
            bit(set, 13) == bit(other, 13),
            bit(set, 14) == bit(other, 14),
            bit(set, 15) == bit(other, 15),
    ;
}

/// Two sets with the same ranks are equal.
pub proof fn lemma_equal_sets(set: u16, other: u16)
    requires
        forall|r: int| 0 <= r < 16 ==> has_rank(set, r) == has_rank(other, r),
    ensures
        set == other,
{
    assert(has_rank(set, 0) == has_rank(other, 0));
    assert(has_rank(set, 1) == has_rank(other, 1));
    assert(has_rank(set, 2) == has_rank(other, 2));
    assert(has_rank(set, 3) == has_rank(other, 3));
    assert(has_rank(set, 4) == has_rank(other, 4));
    assert(has_rank(set, 5) == has_rank(other, 5));
    assert(has_rank(set, 6) == has_rank(other, 6));
    assert(has_rank(set, 7) == has_rank(other, 7));
    assert(has_rank(set, 8) == has_rank(other, 8));
    assert(has_rank(set, 9) == has_rank(other, 9));
    assert(has_rank(set, 10) == has_rank(other, 10));
    assert(has_rank(set, 11) == has_rank(other, 11));
    assert(has_rank(set, 12) == has_rank(other, 12));
    assert(has_rank(set, 13) == has_rank(other, 13));
    assert(has_rank(set, 14) == has_rank(other, 14));
    assert(has_rank(set, 15) == has_rank(other, 15));
    lemma_equal_by_bits(set, other);
}

/// Two sets that agree on the ranks in `low..high` have as many ranks there.
pub proof fn lemma_count_agrees(set: u16, other: u16, low: int, high: int)
    requires
        forall|r: int| low <= r < high ==> has_rank(set, r) == has_rank(other, r),
    ensures
        count_ranks(set, low, high) == count_ranks(other, low, high),
    decreases high - low,
{
    if high > low {
        lemma_count_agrees(set, other, low, high - 1);
    }
}

/// A range holds at most as many ranks as it is long.
pub proof fn lemma_count_bound(set: u16, low: int, high: int)
    ensures
        count_ranks(set, low, high) <= if high <= low {
            0
        } else {
            high - low
        },
    decreases high - low,
{
    if high > low {
        lemma_count_bound(set, low, high - 1);
    }
}

/// Counting over `low..high` is counting over `low..middle` and over
/// `middle..high`.
pub proof fn lemma_count_split(set: u16, low: int, middle: int, high: int)
    requires
        low <= middle <= high,
    ensures
        count_ranks(set, low, high) == count_ranks(set, low, middle) + count_ranks(
            set,
            middle,
            high,
        ),
    decreases high - middle,
{
    if high > middle {
        lemma_count_split(set, low, middle, high - 1);
    }
}

/// A range without ranks of `set` counts zero, and a range that counts zero
/// holds no rank of `set`.
pub proof fn lemma_count_zero(set: u16, low: int, high: int)
    ensures
        count_ranks(set, low, high) == 0 <==> (forall|r: int|
            low <= r < high ==> !has_rank(set, r)),
    decreases high - low,
{
    if high > low {
        lemma_count_zero(set, low, high - 1);
        if count_ranks(set, low, high) == 0 {
            assert forall|r: int| low <= r < high implies !has_rank(set, r) by {
                if r < high - 1 {
                }
            }
        }
    }
}

/// Putting a rank into a set changes the count of a range by one where the
/// rank is new and lies in the range, and not at all otherwise.
pub proof fn lemma_count_with(set: u16, rank: int, low: int, high: int)
    requires
        0 <= rank < 16,
    ensures
        count_ranks(set | (1u16 << (rank as u16)), low, high) == count_ranks(set, low, high) + if low
            <= rank < high && !has_rank(set, rank) {
            1nat
        } else {
            0nat
        },
    decreases high - low,
{
    lemma_rank_algebra(set, 1u16 << (rank as u16), rank);
    if high > low {
        lemma_count_with(set, rank, low, high - 1);
    }
}

/// Taking a rank out of a set changes the count of a range by one where the
/// rank was in the set and lies in the range, and not at all otherwise.
pub proof fn lemma_count_without(set: u16, rank: int, low: int, high: int)
    requires
        0 <= rank < 16,
    ensures
        count_ranks(set, low, high) == count_ranks(without_rank(set, rank), low, high) + if low
            <= rank < high && has_rank(set, rank) {
            1nat
        } else {
            0nat
        },
    decreases high - low,
{
    lemma_rank_algebra(set, 0, rank);
    if high > low {
        lemma_count_without(set, rank, low, high - 1);
    }
}

/// The ranks of `top_ranks_below`.
pub proof fn lemma_top_ranks_below(set: u16, count: nat, bound: int)
    requires
        bound <= 16,
    ensures
        forall|r: int| #[trigger]
            has_rank(top_ranks_below(set, count, bound), r) == (r < bound && has_rank(set, r)
                && count_ranks(set, r + 1, 16) < count),
    decreases bound,
{
    if bound <= 0 {
        lemma_rank_algebra(0, 0, 0);
    } else {
        lemma_top_ranks_below(set, count, bound - 1);
        let rest = top_ranks_below(set, count, bound - 1);
        lemma_rank_algebra(rest, 1u16 << ((bound - 1) as u16), bound - 1);
    }
}

/// A rank is among the `count` highest of `set` exactly if it is in `set`
/// and fewer than `count` ranks of `set` lie above it.
pub proof fn lemma_top_ranks(set: u16, count: nat)
    ensures
        forall|r: int| #[trigger]
            has_rank(top_ranks(set, count), r) == (has_rank(set, r) && count_ranks(set, r + 1, 16)
                < count),
{
    lemma_top_ranks_below(set, count, 16);
}

/// The highest rank below `bound` is in the set and no rank of the set lies
/// between it and `bound`; where the set has no rank below `bound` it is 0.
pub proof fn lemma_highest_rank_below(set: u16, bound: int)
    requires
        bound <= 16,
    ensures
        0 <= highest_rank_below(set, bound),
        bound > 0 ==> highest_rank_below(set, bound) < bound,
        forall|r: int| highest_rank_below(set, bound) < r < bound ==> !has_rank(set, r),
        (exists|r: int| 0 <= r < bound && has_rank(set, r)) ==> has_rank(
            set,
            highest_rank_below(set, bound),
        ),
    decreases bound,
{
    if bound > 0 && !has_rank(set, bound - 1) {
        lemma_highest_rank_below(set, bound - 1);
        if exists|r: int| 0 <= r < bound && has_rank(set, r) {
            let r = choose|r: int| 0 <= r < bound && has_rank(set, r);
            assert(0 <= r < bound - 1 && has_rank(set, r));
        }
    }
}

/// A rank of the set with no rank of the set above it is the highest.
pub proof fn lemma_highest_rank_is(set: u16, rank: int)
    requires
        has_rank(set, rank),
        forall|r: int| rank < r < 16 ==> !has_rank(set, r),
    ensures
        highest_rank(set) == rank,
{
    lemma_highest_rank_below(set, 16);
}

proof fn lemma_bit_of_drop_lowest(set: u16, lowest: u16, index: u16)
    requires
        lowest < 16,
        index < 16,
        bit(set, lowest),
        set & (((1u16 << lowest) - 1) as u16) == 0,
    ensures
        set >= 1,
        bit(set & ((set - 1) as u16), index) == (bit(set, index) && index != lowest),
{
    assert(set >= 1 && ((((set & ((set - 1) as u16)) >> index) & 1 == 1) == (((set >> index) & 1 == 1)
        && index != lowest))) by (bit_vector)
        requires
            lowest < 16,
            index < 16,
            (set >> lowest) & 1 == 1,
            set & (((1u16 << lowest) - 1) as u16) == 0,
    ;
}

proof fn lemma_low_bits_clear(set: u16, lowest: u16)
    requires
        lowest < 16,
        lowest > 0 ==> set & (((1u16 << ((lowest - 1) as u16)) - 1) as u16) == 0,
        lowest > 0 ==> !bit(set, ((lowest - 1) as u16)),
    ensures
        set & (((1u16 << lowest) - 1) as u16) == 0,
{
    assert(set & (((1u16 << lowest) - 1) as u16) == 0) by (bit_vector)
        requires
            lowest < 16,
            lowest > 0 ==> set & (((1u16 << ((lowest - 1) as u16)) - 1) as u16) == 0,
            lowest > 0 ==> !((set >> ((lowest - 1) as u16)) & 1 == 1),
    ;
}

proof fn lemma_no_rank_below(set: u16, lowest: int)
    requires
        0 <= lowest < 16,
        forall|r: int| 0 <= r < lowest ==> !has_rank(set, r),
    ensures
        set & (((1u16 << (lowest as u16)) - 1) as u16) == 0,
    decreases lowest,
{
    if lowest > 0 {
        lemma_no_rank_below(set, lowest - 1);
        assert(!has_rank(set, lowest - 1));
    }
    lemma_low_bits_clear(set, lowest as u16);
}

/// The lowest rank of `set` below `bound`, or `bound` where there is none.
pub open spec fn lowest_rank_from(set: u16, from: int) -> int
    decreases 16 - from,
{
    if from >= 16 {
        16
    } else if has_rank(set, from) {
        from
    } else {
        lowest_rank_from(set, from + 1)
    }
}

/// The lowest rank of `set`, or 16 for the empty set.
pub open spec fn lowest_rank(set: u16) -> int {
    lowest_rank_from(set, 0)
}

/// The lowest rank from `from` on is in the set, and no rank of the set lies
/// between `from` and it.
pub proof fn lemma_lowest_rank_from(set: u16, from: int)
    requires
        0 <= from,
    ensures
        from <= lowest_rank_from(set, from) || from > 16,
        lowest_rank_from(set, from) <= 16,
        forall|r: int| from <= r < lowest_rank_from(set, from) ==> !has_rank(set, r),
        lowest_rank_from(set, from) < 16 ==> has_rank(set, lowest_rank_from(set, from)),
    decreases 16 - from,
{
    if from < 16 && !has_rank(set, from) {
        lemma_lowest_rank_from(set, from + 1);
    }
}

/// Clearing the lowest set bit of a set that is not empty takes its lowest
/// rank out and leaves the others.
pub proof fn lemma_drop_lowest(set: u16)
    requires
        set != 0,
    ensures
        set >= 1,
        lowest_rank(set) < 16,
        set & ((set - 1) as u16) == without_rank(set, lowest_rank(set)),
{
    lemma_lowest_rank_from(set, 0);
    let lowest = lowest_rank(set);
    if lowest >= 16 {
        lemma_rank_algebra(0, 0, 0);
        lemma_equal_sets(set, 0);
    }
    lemma_no_rank_below(set, lowest);
    let dropped = set & ((set - 1) as u16);
    assert forall|r: int| 0 <= r < 16 implies has_rank(dropped, r) == has_rank(
        without_rank(set, lowest),
        r,
    ) by {
        lemma_bit_of_drop_lowest(set, lowest as u16, r as u16);
        lemma_bit_of_removal(set, lowest as u16, r as u16);
    }
    lemma_equal_sets(dropped, without_rank(set, lowest));
    lemma_bit_of_drop_lowest(set, lowest as u16, 0);
}

/// Whether `current` is `whole` without its `dropped` lowest ranks: it
/// keeps the ranks of `whole` that have `dropped` or more below them.
pub open spec fn without_lowest(whole: u16, current: u16, dropped: nat) -> bool {
    forall|r: int|
        0 <= r < 16 ==> #[trigger] has_rank(current, r) == (has_rank(whole, r) && count_ranks(
            whole,
            0,
            r,
        ) >= dropped)
}

proof fn lemma_count_below_lowest(whole: u16, current: u16, dropped: nat, bound: int)
    requires
        without_lowest(whole, current, dropped),
        0 <= bound <= lowest_rank(current),
    ensures
        count_ranks(whole, 0, bound) <= dropped,
    decreases bound,
{
    if bound > 0 {
        lemma_count_below_lowest(whole, current, dropped, bound - 1);
        lemma_lowest_rank_from(current, 0);
        assert(!has_rank(current, bound - 1));
    }
}

/// The empty set has no ranks.
pub proof fn lemma_empty_total()
    ensures
        rank_total(0) == 0,
{
    lemma_rank_algebra(0, 0, 0);
    lemma_count_zero(0, 0, 16);
}

/// Clearing the lowest set bit drops one more of the lowest ranks.
pub proof fn lemma_drop_lowest_step(whole: u16, current: u16, dropped: nat)
    requires
        without_lowest(whole, current, dropped),
        rank_total(current) > 0,
    ensures
        current >= 1,
        without_lowest(whole, current & ((current - 1) as u16), dropped + 1),
        rank_total(current & ((current - 1) as u16)) + 1 == rank_total(current),
{
    if current == 0 {
        lemma_empty_total();
    }
    lemma_drop_lowest(current);
    let lowest = lowest_rank(current);
    let next = current & ((current - 1) as u16);
    lemma_lowest_rank_from(current, 0);
    lemma_rank_algebra(current, 0, lowest);
    lemma_count_below_lowest(whole, current, dropped, lowest);
    assert(has_rank(current, lowest));
    assert(count_ranks(whole, 0, lowest) == dropped);
    assert(count_ranks(whole, 0, lowest + 1) == dropped + 1);
    assert forall|r: int| 0 <= r < 16 implies #[trigger] has_rank(next, r) == (has_rank(
        whole,
        r,
    ) && count_ranks(whole, 0, r) >= dropped + 1) by {
        if r < lowest {
            assert(!has_rank(current, r));
        } else if r > lowest {
            lemma_count_split(whole, 0, lowest + 1, r);
        }
    }
    lemma_count_without(current, lowest, 0, 16);
}

/// A set without its lowest ranks is the set of its highest ranks.
pub proof fn lemma_dropped_is_top(whole: u16, current: u16, dropped: nat, kept: nat)
    requires
        without_lowest(whole, current, dropped),
        rank_total(whole) == dropped + kept,
    ensures
        current == top_ranks(whole, kept),
{
    lemma_top_ranks(whole, kept);
    assert forall|r: int| 0 <= r < 16 implies has_rank(current, r) == has_rank(
        top_ranks(whole, kept),
        r,
    ) by {
        lemma_count_split(whole, 0, r, 16);
        lemma_count_split(whole, r, r + 1, 16);
        assert(count_ranks(whole, r, r + 1) == if has_rank(whole, r) {
            1nat
        } else {
            0nat
        }) by {
            assert(count_ranks(whole, r, r) == 0);
        }
    }
    lemma_equal_sets(current, top_ranks(whole, kept));
}

/// `set` without its lowest rank: its lowest set bit is cleared.
pub open spec fn drop_lowest(set: u16) -> u16 {
    set & ((set - 1) as u16)
}

/// Clearing the lowest set bit twice leaves the highest ranks of a set.
pub proof fn lemma_strip_two(whole: u16, kept: nat)
    requires
        rank_total(whole) == kept + 2,
    ensures
        whole >= 1,
        drop_lowest(whole) >= 1,
        drop_lowest(drop_lowest(whole)) == top_ranks(whole, kept),
{
    assert(without_lowest(whole, whole, 0));
    lemma_drop_lowest_step(whole, whole, 0);
    lemma_drop_lowest_step(whole, drop_lowest(whole), 1);
    lemma_dropped_is_top(whole, drop_lowest(drop_lowest(whole)), 2, kept);
}

/// A set that holds a run up to `high` holds a straight that ends at `high`
/// or above.
pub proof fn lemma_run_is_straight(set: u16, high: int, top: int)
    requires
        5 <= high <= top,
        is_run(set, high),
    ensures
        straight_high_up_to(set, top) matches Some(found) && high <= found <= top,
    decreases top,
{
    if !is_run(set, top) {
        lemma_run_is_straight(set, high, top - 1);
    }
}

/// Whether `set` holds ranks only: no bit below the two or above the ace.
pub open spec fn only_ranks(set: u16) -> bool {
    forall|r: int| has_rank(set, r) ==> 2 <= r <= 14
}

} // verus!
