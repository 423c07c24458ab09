//! How the rank lists of a hand behave when the hand is put in order or its
//! suits are renamed.

use crate::canonical::{relabel, relabel_card};
use crate::card::{all_valid, Card};
use crate::order::{card_le, is_sorted, lemma_sorted_cards, sorted_cards};
use crate::ranks::{is_suit_permutation, suit_ranks};
use vstd::prelude::*;
use vstd::relations::{sorted_by, total_ordering};
use vstd::seq_lib::{lemma_sorted_unique, to_multiset_build};

verus! {

/// Whether the ranks never fall.
pub open spec fn ranks_ascending(ranks: Seq<u8>) -> bool {
    forall|i: int, j: int| 0 <= i < j < ranks.len() ==> #[trigger] ranks[i] <= #[trigger] ranks[j]
}

/// The order of ranks as a relation.
pub open spec fn rank_order() -> spec_fn(u8, u8) -> bool {
    |a: u8, b: u8| a <= b
}

/// Two ascending rank lists with the same ranks, each as often, are the same list.
pub proof fn lemma_ascending_same_ranks(a: Seq<u8>, b: Seq<u8>)
    requires
        ranks_ascending(a),
        ranks_ascending(b),
        a.to_multiset() == b.to_multiset(),
    ensures
        a == b,
{
    let leq = rank_order();
    assert(total_ordering(leq)) by {
        assert forall|x: u8, y: u8| #[trigger] leq(x, y) && #[trigger] leq(y, x) implies x == y by {}
        assert forall|x: u8, y: u8, z: u8| #[trigger] leq(x, y) && #[trigger] leq(y, z) implies leq(
            x,
            z,
        ) by {}
        assert forall|x: u8, y: u8| #[trigger] leq(x, y) || #[trigger] leq(y, x) by {}
        assert forall|x: u8| #[trigger] leq(x, x) by {}
    }
    assert(sorted_by(a, leq)) by {
        assert forall|i: int, j: int| 0 <= i < j < a.len() implies #[trigger] leq(a[i], a[j]) by {
            assert(a[i] <= a[j]);
        }
    }
    assert(sorted_by(b, leq)) by {
        assert forall|i: int, j: int| 0 <= i < j < b.len() implies #[trigger] leq(b[i], b[j]) by {
            assert(b[i] <= b[j]);
        }
    }
    lemma_sorted_unique(a, b, leq);
}

/// The rank list of two hands laid end to end is their rank lists laid end to end.
pub proof fn lemma_suit_ranks_concat(a: Seq<Card>, b: Seq<Card>, suit: u8)
    ensures
        suit_ranks(a + b, suit) == suit_ranks(a, suit) + suit_ranks(b, suit),
    decreases b.len(),
{
    if b.len() == 0 {
        assert(a + b =~= a);
        assert(suit_ranks(a, suit) + suit_ranks(b, suit) =~= suit_ranks(a, suit));
    } else {
        assert((a + b).drop_last() =~= a + b.drop_last());
        assert((a + b).last() == b.last());
        lemma_suit_ranks_concat(a, b.drop_last(), suit);
        if b.last().suit == suit {
            assert(suit_ranks(a + b, suit) =~= suit_ranks(a, suit) + suit_ranks(b, suit));
        }
    }
}

/// Each rank in a suit's list is the rank of a card of that suit, and the
/// list is no longer than the hand.
pub proof fn lemma_suit_ranks_members(cards: Seq<Card>, suit: u8, k: int) -> (i: int)
    requires
        0 <= k < suit_ranks(cards, suit).len(),
    ensures
        0 <= i < cards.len(),
        cards[i].suit == suit,
        cards[i].rank == suit_ranks(cards, suit)[k],
    decreases cards.len(),
{
    if cards.last().suit == suit && k == suit_ranks(cards.drop_last(), suit).len() {
        cards.len() - 1
    } else {
        lemma_suit_ranks_members(cards.drop_last(), suit, k)
    }
}

/// In a sorted hand the ranks of each suit never fall.
pub proof fn lemma_suit_ranks_ascending(cards: Seq<Card>, suit: u8)
    requires
        is_sorted(cards),
    ensures
        ranks_ascending(suit_ranks(cards, suit)),
    decreases cards.len(),
{
    if cards.len() > 0 {
        let rest = cards.drop_last();
        assert(is_sorted(rest)) by {
            assert forall|i: int, j: int| 0 <= i < j < rest.len() implies card_le(
                #[trigger] rest[i],
                #[trigger] rest[j],
            ) by {
                assert(card_le(cards[i], cards[j]));
            }
        }
        lemma_suit_ranks_ascending(rest, suit);
        if cards.last().suit == suit {
            let ranks = suit_ranks(cards, suit);
            let before = suit_ranks(rest, suit);
            assert forall|i: int, j: int| 0 <= i < j < ranks.len() implies #[trigger] ranks[i]
                <= #[trigger] ranks[j] by {
                if j == before.len() {
                    let at = lemma_suit_ranks_members(rest, suit, i);
                    assert(card_le(cards[at], cards[cards.len() - 1]));
                } else {
                    assert(before[i] <= before[j]);
                }
            }
        }
    }
}

/// A rank occurs in a suit's list as often as the card of that rank and suit
/// occurs in the hand.
pub proof fn lemma_suit_ranks_count(cards: Seq<Card>, suit: u8, rank: u8)
    ensures
        suit_ranks(cards, suit).to_multiset().count(rank) == cards.to_multiset().count(
            Card { rank, suit },
        ),
    decreases cards.len(),
{
    broadcast use vstd::multiset::group_multiset_axioms;

    if cards.len() == 0 {
        assert(cards =~= Seq::<Card>::empty());
        assert(Seq::<Card>::empty().to_multiset().count(Card { rank, suit }) == 0) by {
            vstd::seq_lib::to_multiset_len(Seq::<Card>::empty());
        }
        assert(Seq::<u8>::empty().to_multiset().count(rank) == 0) by {
            vstd::seq_lib::to_multiset_len(Seq::<u8>::empty());
        }
    } else {
        let rest = cards.drop_last();
        let last = cards.last();
        lemma_suit_ranks_count(rest, suit, rank);
        assert(cards =~= rest.push(last));
        to_multiset_build(rest, last);
        if last.suit == suit {
            to_multiset_build(suit_ranks(rest, suit), last.rank);
        }
    }
}

/// Renaming the suits keeps the cards valid and moves each card to the renamed
/// suit: a card of the new suit occurs as often as the card of the old suit did.
pub proof fn lemma_relabel_count(cards: Seq<Card>, labels: Seq<u8>, suit: u8, rank: u8)
    requires
        all_valid(cards),
        is_suit_permutation(labels),
        suit < 4,
    ensures
        relabel(cards, labels).to_multiset().count(Card { rank, suit: labels[suit as int] })
            == cards.to_multiset().count(Card { rank, suit }),
    decreases cards.len(),
{
    broadcast use vstd::multiset::group_multiset_axioms;

    if cards.len() == 0 {
        assert(cards =~= Seq::<Card>::empty());
        assert(relabel(cards, labels) =~= Seq::<Card>::empty());
        vstd::seq_lib::to_multiset_len(Seq::<Card>::empty());
    } else {
        let rest = cards.drop_last();
        let last = cards.last();
        assert(last.is_valid());
        assert(all_valid(rest)) by {
            assert forall|i: int| 0 <= i < rest.len() implies (#[trigger] rest[i]).is_valid() by {
                assert(rest[i] == cards[i]);
            }
        }
        lemma_relabel_count(rest, labels, suit, rank);
        assert(cards =~= rest.push(last));
        assert(relabel(cards, labels) =~= relabel(rest, labels).push(relabel_card(last, labels)));
        to_multiset_build(rest, last);
        to_multiset_build(relabel(rest, labels), relabel_card(last, labels));
        if last.suit != suit {
            assert(labels[last.suit as int] != labels[suit as int]);
        }
    }
}

/// Renaming the suits of a hand of deck cards gives a hand of deck cards.
pub proof fn lemma_relabel_valid(cards: Seq<Card>, labels: Seq<u8>)
    requires
        all_valid(cards),
        is_suit_permutation(labels),
    ensures
        all_valid(relabel(cards, labels)),
        relabel(cards, labels).len() == cards.len(),
{
    assert forall|i: int| 0 <= i < cards.len() implies (#[trigger] relabel(cards, labels)[i]).is_valid() by {
        assert(cards[i].is_valid());
    }
}

/// Sorting a hand of deck cards gives a hand of deck cards.
pub proof fn lemma_sorted_valid(cards: Seq<Card>)
    requires
        all_valid(cards),
    ensures
        all_valid(sorted_cards(cards)),
{
    lemma_sorted_cards(cards);
    let sorted = sorted_cards(cards);
    assert forall|i: int| 0 <= i < sorted.len() implies (#[trigger] sorted[i]).is_valid() by {
        assert(sorted.contains(sorted[i]));
        assert(cards.contains(sorted[i]));
    }
}

/// When the suits of a hand are renamed and the hand is put in order, each
/// renamed suit holds the ranks, in the order, that the suit held in the
/// sorted hand.
pub proof fn lemma_suit_ranks_of_relabelled(cards: Seq<Card>, labels: Seq<u8>, suit: u8)
    requires
        all_valid(cards),
        is_suit_permutation(labels),
        suit < 4,
    ensures
        suit_ranks(sorted_cards(relabel(cards, labels)), labels[suit as int]) == suit_ranks(
            sorted_cards(cards),
            suit,
        ),
{
    broadcast use vstd::multiset::group_multiset_axioms;

    let renamed = relabel(cards, labels);
    let a = suit_ranks(sorted_cards(renamed), labels[suit as int]);
    let b = suit_ranks(sorted_cards(cards), suit);
    lemma_sorted_cards(renamed);
    lemma_sorted_cards(cards);
    lemma_suit_ranks_ascending(sorted_cards(renamed), labels[suit as int]);
    lemma_suit_ranks_ascending(sorted_cards(cards), suit);
    assert forall|rank: u8| a.to_multiset().count(rank) == b.to_multiset().count(rank) by {
        lemma_suit_ranks_count(sorted_cards(renamed), labels[suit as int], rank);
        lemma_suit_ranks_count(sorted_cards(cards), suit, rank);
        lemma_relabel_count(cards, labels, suit, rank);
    }
    assert(a.to_multiset() =~= b.to_multiset());
    lemma_ascending_same_ranks(a, b);
}

} // verus!
