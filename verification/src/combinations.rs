//! The combinations of a sequence, in the order in which they are dealt.

use crate::card::Card;
use itertools::Itertools;
use vstd::prelude::*;

verus! {

/// The ways to pick `size` items of `items` at rising positions. Those that
/// start with the first item come first, each followed by a combination of
/// the items after it; then come those that leave the first item out. This
/// is the lexicographic order of the positions.
pub open spec fn combinations<A>(items: Seq<A>, size: nat) -> Seq<Seq<A>>
    decreases items.len(),
{
    if size == 0 {
        seq![Seq::empty()]
    } else if items.len() == 0 {
        Seq::empty()
    } else {
        combinations(items.drop_first(), (size - 1) as nat).map_values(
            |rest: Seq<A>| seq![items[0]] + rest,
        ) + combinations(items.drop_first(), size)
    }
}

/// The number of ways to pick `size` out of `total`, by Pascal's rule.
pub open spec fn binomial(total: nat, size: nat) -> nat
    decreases total,
{
    if size == 0 {
        1
    } else if total == 0 {
        0
    } else {
        binomial((total - 1) as nat, (size - 1) as nat) + binomial((total - 1) as nat, size)
    }
}

/// There are `binomial(items.len(), size)` combinations.
pub proof fn lemma_combinations_len<A>(items: Seq<A>, size: nat)
    ensures
        combinations(items, size).len() == binomial(items.len(), size),
    decreases items.len(),
{
    if size != 0 && items.len() != 0 {
        lemma_combinations_len(items.drop_first(), (size - 1) as nat);
        lemma_combinations_len(items.drop_first(), size);
    }
}

/// Each combination has `size` items, all of them items of the sequence, and
/// holds no item twice where the sequence holds none twice.
pub proof fn lemma_combinations_members<A>(items: Seq<A>, size: nat, index: int)
    requires
        0 <= index < combinations(items, size).len(),
    ensures
        combinations(items, size)[index].len() == size,
        forall|j: int|
            0 <= j < size ==> items.contains(#[trigger] combinations(items, size)[index][j]),
        items.no_duplicates() ==> combinations(items, size)[index].no_duplicates(),
    decreases items.len(),
{
    if size != 0 && items.len() != 0 {
        let tail = items.drop_first();
        let with_first = combinations(tail, (size - 1) as nat);
        let chosen = combinations(items, size)[index];
        if index < with_first.len() {
            lemma_combinations_members(tail, (size - 1) as nat, index);
            let rest = with_first[index];
            assert(chosen == seq![items[0]] + rest);
            assert forall|j: int| 0 <= j < size implies items.contains(#[trigger] chosen[j]) by {
                if j == 0 {
                    assert(items[0] == chosen[0]);
                } else {
                    assert(chosen[j] == rest[j - 1]);
                    assert(tail.contains(rest[j - 1]));
                    let k = choose|k: int| 0 <= k < tail.len() && tail[k] == rest[j - 1];
                    assert(items[k + 1] == chosen[j]);
                }
            }
            if items.no_duplicates() {
                assert(tail.no_duplicates());
                assert forall|a: int, b: int| 0 <= a < b < chosen.len() implies chosen[a]
                    != chosen[b] by {
                    assert(chosen[b] == rest[b - 1]);
                    if a == 0 {
                        assert(tail.contains(rest[b - 1]));
                        let k = choose|k: int| 0 <= k < tail.len() && tail[k] == rest[b - 1];
                        assert(items[k + 1] == chosen[b]);
                    } else {
                        assert(chosen[a] == rest[a - 1]);
                    }
                }
            }
        } else {
            lemma_combinations_members(tail, size, index - with_first.len());
            let picked = combinations(tail, size)[index - with_first.len()];
            assert(chosen == picked);
            assert forall|j: int| 0 <= j < size implies items.contains(#[trigger] chosen[j]) by {
                assert(tail.contains(picked[j]));
                let k = choose|k: int| 0 <= k < tail.len() && tail[k] == picked[j];
                assert(items[k + 1] == chosen[j]);
            }
            if items.no_duplicates() {
                assert(tail.no_duplicates());
            }
        }
    }
}

/// Every board of five cards that the deck can deal, in the order of
/// `combinations`.
///
/// Calls `Itertools::tuple_combinations` on the cards of the deck. The
/// contract says what that iterator yields: each choice of five cards at
/// rising positions once, and the choices in the lexicographic order of their
/// positions. This is not proved here.
#[verifier::external_body]
pub(crate) fn five_card_combinations(deck: &Vec<Card>) -> (boards: Vec<[Card; 5]>)
    ensures
        boards@.len() == combinations(deck@, 5).len(),
        forall|i: int|
            0 <= i < boards@.len() ==> (#[trigger] boards@[i])@ == combinations(deck@, 5)[i],
{
    deck.iter().copied().tuple_combinations().map(|(a, b, c, d, e)| [a, b, c, d, e]).collect()
}

} // verus!
