//! What holds of canonical forms whatever the hand.

use crate::canonical::{
    canonical_cards, is_canonical_form, is_canonical_hand, is_canonical_shape, relabel,
    tied_suits_split_alike,
};
use crate::card::{all_valid, Card};
use crate::order::{
    lemma_sort_hand, lemma_sort_hand_fixed, lemma_sorted_cards, lemma_sorted_cards_fixed,
    lemma_sorted_cards_of_same_cards, sort_hand, sorted_cards,
};
use crate::ranks::{
    by_suits, is_suit_permutation, key_before, lemma_key_before_order, lemma_ranks_before_order,
    lemma_suit_labels, lemma_suit_precedes_order, ranks_before, suit_keys, suit_label, suit_labels,
    suit_of_label, suit_precedes, suit_ranks,
};
use crate::suit_lemmas::{
    lemma_relabel_valid, lemma_suit_ranks_concat, lemma_suit_ranks_of_relabelled,
};
use vstd::prelude::*;

verus! {

/// Hands with the same cards, each as often, have a card twice or not together.
pub proof fn lemma_duplicates_of_same_cards(a: Seq<Card>, b: Seq<Card>)
    requires
        a.to_multiset() == b.to_multiset(),
    ensures
        a.no_duplicates() == b.no_duplicates(),
{
    if a.no_duplicates() {
        a.lemma_multiset_has_no_duplicates();
        b.lemma_multiset_has_no_duplicates_conv();
    }
    if b.no_duplicates() {
        b.lemma_multiset_has_no_duplicates();
        a.lemma_multiset_has_no_duplicates_conv();
    }
}

/// Sorting a hand of deck cards, street by street or as a whole, gives a hand
/// of deck cards.
pub proof fn lemma_sort_hand_valid(cards: Seq<Card>, streets: bool)
    requires
        all_valid(cards),
    ensures
        all_valid(sort_hand(cards, streets)),
{
    lemma_sort_hand(cards, streets);
    let sorted = sort_hand(cards, streets);
    assert forall|i: int| 0 <= i < sorted.len() implies (#[trigger] sorted[i]).is_valid() by {
        assert(sorted.contains(sorted[i]));
        assert(cards.contains(sorted[i]));
    }
}

/// Renaming the suits neither makes nor removes a card that occurs twice.
pub proof fn lemma_relabel_duplicates(cards: Seq<Card>, labels: Seq<u8>)
    requires
        all_valid(cards),
        is_suit_permutation(labels),
    ensures
        relabel(cards, labels).no_duplicates() == cards.no_duplicates(),
{
    let renamed = relabel(cards, labels);
    assert forall|i: int, j: int| 0 <= i < cards.len() && 0 <= j < cards.len() implies (renamed[i]
        == renamed[j] <==> cards[i] == cards[j]) by {
        assert(cards[i].is_valid() && cards[j].is_valid());
        if cards[i].suit != cards[j].suit {
            let s = cards[i].suit as int;
            let t = cards[j].suit as int;
            if s < t {
                assert(labels[s] != labels[t]);
            } else {
                assert(labels[t] != labels[s]);
            }
        }
    }
    if cards.no_duplicates() {
        assert forall|i: int, j: int|
            0 <= i < renamed.len() && 0 <= j < renamed.len() && i != j implies renamed[i]
            != renamed[j] by {
            assert(cards[i] != cards[j]);
        }
    }
    if renamed.no_duplicates() {
        assert forall|i: int, j: int| 0 <= i < cards.len() && 0 <= j < cards.len() && i != j implies cards[i]
            != cards[j] by {
            assert(renamed[i] != renamed[j]);
        }
    }
}

/// When the suits of a hand are renamed and the hand is put in order street by
/// street or as a whole, each renamed suit holds the ranks, in the order, that
/// the suit held in the hand put in order.
pub proof fn lemma_suit_ranks_of_relabelled_hand(
    cards: Seq<Card>,
    labels: Seq<u8>,
    streets: bool,
    suit: u8,
)
    requires
        all_valid(cards),
        is_suit_permutation(labels),
        suit < 4,
    ensures
        suit_ranks(sort_hand(relabel(cards, labels), streets), labels[suit as int]) == suit_ranks(
            sort_hand(cards, streets),
            suit,
        ),
{
    let renamed = relabel(cards, labels);
    if streets && cards.len() > 2 {
        assert(renamed.take(2) =~= relabel(cards.take(2), labels));
        assert(renamed.skip(2) =~= relabel(cards.skip(2), labels));
        assert(all_valid(cards.take(2))) by {
            assert forall|i: int| 0 <= i < 2 implies (#[trigger] cards.take(2)[i]).is_valid() by {
                assert(cards.take(2)[i] == cards[i]);
            }
        }
        assert(all_valid(cards.skip(2))) by {
            assert forall|i: int| 0 <= i < cards.skip(2).len() implies (#[trigger] cards.skip(
                2,
            )[i]).is_valid() by {
                assert(cards.skip(2)[i] == cards[i + 2]);
            }
        }
        lemma_suit_ranks_of_relabelled(cards.take(2), labels, suit);
        lemma_suit_ranks_of_relabelled(cards.skip(2), labels, suit);
        lemma_suit_ranks_concat(
            sorted_cards(renamed.take(2)),
            sorted_cards(renamed.skip(2)),
            labels[suit as int],
        );
        lemma_suit_ranks_concat(sorted_cards(cards.take(2)), sorted_cards(cards.skip(2)), suit);
    } else {
        lemma_suit_ranks_of_relabelled(cards, labels, suit);
    }
}

/// In the canonical form, the suit with a new label holds the ranks, in the
/// order, that the suit held in the hand put in order, among all cards and
/// among the hole cards.
pub proof fn lemma_canonical_suit_ranks(cards: Seq<Card>, streets: bool, suit: u8)
    requires
        all_valid(cards),
        suit < 4,
    ensures
        suit_keys(canonical_cards(cards, streets), streets)[suit_labels(
            suit_keys(sort_hand(cards, streets), streets),
        )[suit as int] as int] == suit_keys(sort_hand(cards, streets), streets)[suit as int],
        is_suit_permutation(suit_labels(suit_keys(sort_hand(cards, streets), streets))),
{
    let sorted = sort_hand(cards, streets);
    let labels = suit_labels(suit_keys(sorted, streets));
    let renamed = relabel(sorted, labels);
    let canonical = canonical_cards(cards, streets);
    lemma_suit_labels(suit_keys(sorted, streets));
    lemma_sort_hand(cards, streets);
    lemma_sort_hand_valid(cards, streets);
    lemma_sort_hand_fixed(sorted, streets);
    lemma_suit_ranks_of_relabelled_hand(sorted, labels, streets, suit);
    lemma_sort_hand(renamed, streets);
    if streets && cards.len() > 2 {
        let hole = sorted.take(2);
        assert(all_valid(hole)) by {
            assert forall|i: int| 0 <= i < hole.len() implies (#[trigger] hole[i]).is_valid() by {
                assert(hole[i] == sorted[i]);
            }
        }
        lemma_sorted_cards(cards.take(2));
        lemma_sorted_cards(cards.skip(2));
        assert(hole =~= sorted_cards(cards.take(2)));
        lemma_sorted_cards_fixed(hole);
        assert(renamed.take(2) =~= relabel(hole, labels));
        lemma_sorted_cards(renamed.take(2));
        lemma_sorted_cards(renamed.skip(2));
        assert(canonical.take(2) =~= sorted_cards(relabel(hole, labels)));
        crate::suit_lemmas::lemma_suit_ranks_of_relabelled(hole, labels, suit);
    }
}

/// The canonical form of a hand of deck cards is a hand of deck cards of the
/// same length.
pub proof fn lemma_canonical_valid(cards: Seq<Card>, streets: bool)
    requires
        all_valid(cards),
    ensures
        all_valid(canonical_cards(cards, streets)),
        canonical_cards(cards, streets).len() == cards.len(),
{
    let sorted = sort_hand(cards, streets);
    let labels = suit_labels(suit_keys(sorted, streets));
    lemma_suit_labels(suit_keys(sorted, streets));
    lemma_sort_hand(cards, streets);
    lemma_sort_hand_valid(cards, streets);
    lemma_relabel_valid(sorted, labels);
    lemma_sort_hand(relabel(sorted, labels), streets);
    lemma_sort_hand_valid(relabel(sorted, labels), streets);
}

/// Keys in order are rank lists in order.
pub proof fn lemma_form_has_shape(cards: Seq<Card>, streets: bool)
    requires
        is_canonical_form(cards, streets),
    ensures
        is_canonical_shape(cards, streets),
{
    let keys = suit_keys(cards, streets);
    let lists = by_suits(cards);
    assert forall|s: int| 1 <= s < 4 implies !ranks_before(#[trigger] lists[s], lists[s - 1]) by {
        assert(!key_before(keys[s], keys[s - 1]));
        lemma_ranks_before_order(lists[s], lists[s - 1], lists[s]);
    }
}

/// The canonical form of every hand is written as a canonical form is, and so
/// has canonical shape.
pub proof fn lemma_canonical_shape(cards: Seq<Card>, streets: bool)
    requires
        all_valid(cards),
    ensures
        is_canonical_form(canonical_cards(cards, streets), streets),
        is_canonical_shape(canonical_cards(cards, streets), streets),
{
    let sorted = sort_hand(cards, streets);
    let keys = suit_keys(sorted, streets);
    let labels = suit_labels(keys);
    let canonical = canonical_cards(cards, streets);
    lemma_suit_labels(keys);
    lemma_suit_precedes_order(keys);
    lemma_sort_hand(relabel(sorted, labels), streets);
    let after = suit_keys(canonical, streets);
    assert forall|j: int| 1 <= j < 4 implies !key_before(#[trigger] after[j], after[j - 1]) by {
        let a = suit_of_label(keys, j - 1);
        let b = suit_of_label(keys, j);
        assert(suit_label(keys, a) == j - 1 && suit_label(keys, b) == j);
        assert(suit_precedes(keys, a, b));
        lemma_canonical_suit_ranks(cards, streets, a as u8);
        lemma_canonical_suit_ranks(cards, streets, b as u8);
        assert(labels[a] == (j - 1) as u8);
        assert(labels[b] == j as u8);
        assert(after[j - 1] == keys[a]);
        assert(after[j] == keys[b]);
        lemma_key_before_order(keys[a], keys[b], keys[a]);
    }
    lemma_form_has_shape(canonical, streets);
}

/// Validity: the canonical form of a hand is canonical, unless the hand holds
/// a card twice, and then it is not.
pub proof fn lemma_canonical_is_canonical(cards: Seq<Card>, streets: bool)
    requires
        all_valid(cards),
    ensures
        is_canonical_hand(canonical_cards(cards, streets), streets) == cards.no_duplicates(),
{
    let sorted = sort_hand(cards, streets);
    let labels = suit_labels(suit_keys(sorted, streets));
    let renamed = relabel(sorted, labels);
    lemma_canonical_shape(cards, streets);
    lemma_suit_labels(suit_keys(sorted, streets));
    lemma_sort_hand(cards, streets);
    lemma_sort_hand_valid(cards, streets);
    lemma_duplicates_of_same_cards(sorted, cards);
    lemma_relabel_duplicates(sorted, labels);
    lemma_sort_hand(renamed, streets);
    lemma_duplicates_of_same_cards(sort_hand(renamed, streets), renamed);
}

/// A key that does not come after a key that does not come after a third does
/// not come after the third.
proof fn lemma_not_after_transitive(
    a: (Seq<u8>, Seq<u8>),
    b: (Seq<u8>, Seq<u8>),
    c: (Seq<u8>, Seq<u8>),
)
    requires
        !key_before(b, a),
        !key_before(c, b),
    ensures
        !key_before(c, a),
{
    lemma_key_before_order(a, b, c);
    lemma_key_before_order(c, a, b);
    lemma_key_before_order(b, c, a);
}

/// A hand that is written as a canonical form is, is its own canonical form.
pub proof fn lemma_canonical_of_canonical(cards: Seq<Card>, streets: bool)
    requires
        all_valid(cards),
        is_canonical_form(cards, streets),
    ensures
        canonical_cards(cards, streets) == cards,
{
    lemma_sort_hand_fixed(cards, streets);
    let keys = suit_keys(cards, streets);
    let labels = suit_labels(keys);
    lemma_suit_precedes_order(keys);
    assert(!key_before(keys[1], keys[0]));
    assert(!key_before(keys[2], keys[1]));
    assert(!key_before(keys[3], keys[2]));
    lemma_not_after_transitive(keys[0], keys[1], keys[2]);
    lemma_not_after_transitive(keys[1], keys[2], keys[3]);
    lemma_not_after_transitive(keys[0], keys[1], keys[3]);
    lemma_key_before_order(keys[0], keys[1], keys[0]);
    lemma_key_before_order(keys[0], keys[2], keys[0]);
    lemma_key_before_order(keys[0], keys[3], keys[0]);
    lemma_key_before_order(keys[1], keys[2], keys[1]);
    lemma_key_before_order(keys[1], keys[3], keys[1]);
    lemma_key_before_order(keys[2], keys[3], keys[2]);
    assert(suit_precedes(keys, 0, 1) && suit_precedes(keys, 0, 2) && suit_precedes(keys, 0, 3));
    assert(suit_precedes(keys, 1, 2) && suit_precedes(keys, 1, 3) && suit_precedes(keys, 2, 3));
    assert(!suit_precedes(keys, 0, 0) && !suit_precedes(keys, 1, 1) && !suit_precedes(keys, 2, 2)
        && !suit_precedes(keys, 3, 3));
    assert(!suit_precedes(keys, 1, 0) && !suit_precedes(keys, 2, 0) && !suit_precedes(keys, 3, 0));
    assert(!suit_precedes(keys, 2, 1) && !suit_precedes(keys, 3, 1) && !suit_precedes(keys, 3, 2));
    assert(suit_label(keys, 0) == 0 && suit_label(keys, 1) == 1 && suit_label(keys, 2) == 2
        && suit_label(keys, 3) == 3);
    assert forall|i: int| 0 <= i < cards.len() implies relabel(cards, labels)[i] == cards[i] by {
        assert(cards[i].is_valid());
    }
    assert(relabel(cards, labels) =~= cards);
}

/// A canonical hand is its own canonical form. Where streets are told apart
/// and there is a board, this is stated of hands in which suits that hold the
/// same ranks hold the same ranks among the hole cards: of two suits that
/// differ there, the canonical form puts first the one whose hole ranks come
/// first.
pub proof fn lemma_canonical_of_shape(cards: Seq<Card>, streets: bool)
    requires
        all_valid(cards),
        is_canonical_shape(cards, streets),
        streets && cards.len() > 2 ==> tied_suits_split_alike(cards),
    ensures
        canonical_cards(cards, streets) == cards,
{
    let keys = suit_keys(cards, streets);
    let lists = by_suits(cards);
    assert forall|s: int| 1 <= s < 4 implies !key_before(#[trigger] keys[s], keys[s - 1]) by {
        assert(!ranks_before(lists[s], lists[s - 1]));
        lemma_ranks_before_order(keys[s].1, keys[s - 1].1, keys[s].1);
        if keys[s].0 == keys[s - 1].0 {
            if streets && cards.len() > 2 {
                assert(suit_ranks(cards, s as u8) == suit_ranks(cards, (s - 1) as u8));
                assert(suit_ranks(cards.take(2), s as u8) == suit_ranks(
                    cards.take(2),
                    (s - 1) as u8,
                ));
            }
            assert(keys[s].1 == keys[s - 1].1);
        }
    }
    lemma_canonical_of_canonical(cards, streets);
}

/// Idempotence: the canonical form of a canonical form is that form.
pub proof fn lemma_canonical_idempotent(cards: Seq<Card>, streets: bool)
    requires
        all_valid(cards),
    ensures
        canonical_cards(canonical_cards(cards, streets), streets) == canonical_cards(cards, streets),
{
    lemma_canonical_valid(cards, streets);
    lemma_canonical_shape(cards, streets);
    lemma_canonical_of_canonical(canonical_cards(cards, streets), streets);
}

/// Order invariance: where streets are not told apart, hands that hold the
/// same cards in another order have the same canonical form.
pub proof fn lemma_canonical_order_invariant(cards: Seq<Card>, reordered: Seq<Card>)
    requires
        cards.to_multiset() == reordered.to_multiset(),
    ensures
        canonical_cards(reordered, false) == canonical_cards(cards, false),
{
    lemma_sorted_cards_of_same_cards(cards, reordered);
}

} // verus!
