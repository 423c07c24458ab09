//! Canonical forms do not depend on the names of the suits.

use crate::canonical::{canonical_cards, relabel};
use crate::card::{all_valid, Card};
use crate::laws::lemma_suit_ranks_of_relabelled_hand;
use crate::order::{lemma_sorted_cards, lemma_sorted_cards_of_same_cards, sort_hand, sorted_cards};
use crate::ranks::{
    indicator, is_suit_permutation, key_before, lemma_key_before_order, lemma_suit_labels,
    suit_keys, suit_label, suit_labels, suit_precedes, suit_ranks,
};
use crate::suit_lemmas::{
    lemma_relabel_count, lemma_relabel_valid, lemma_sorted_valid, lemma_suit_ranks_concat,
    lemma_suit_ranks_count, lemma_suit_ranks_of_relabelled,
};
use vstd::prelude::*;

verus! {

/// The suit that `labels` gives the label `label`.
pub open spec fn labelled_suit(labels: Seq<u8>, label: int) -> int {
    if labels[0] == label {
        0
    } else if labels[1] == label {
        1
    } else if labels[2] == label {
        2
    } else {
        3
    }
}

/// Every label below four is given to one suit.
pub proof fn lemma_labelled_suit(labels: Seq<u8>, label: int)
    requires
        is_suit_permutation(labels),
        0 <= label < 4,
    ensures
        0 <= labelled_suit(labels, label) < 4,
        labels[labelled_suit(labels, label)] == label,
{
    assert(labels[0] < 4 && labels[1] < 4 && labels[2] < 4 && labels[3] < 4);
    assert(labels[0] != labels[1] && labels[0] != labels[2] && labels[0] != labels[3]);
    assert(labels[1] != labels[2] && labels[1] != labels[3] && labels[2] != labels[3]);
}

/// The number of suits whose keys come before `key`.
pub open spec fn suits_before(keys: Seq<(Seq<u8>, Seq<u8>)>, key: (Seq<u8>, Seq<u8>)) -> int {
    indicator(key_before(keys[0], key)) + indicator(key_before(keys[1], key)) + indicator(
        key_before(keys[2], key),
    ) + indicator(key_before(keys[3], key))
}

/// The number of suits whose keys do not come after `key`.
pub open spec fn suits_not_after(keys: Seq<(Seq<u8>, Seq<u8>)>, key: (Seq<u8>, Seq<u8>)) -> int {
    indicator(!key_before(key, keys[0])) + indicator(!key_before(key, keys[1])) + indicator(
        !key_before(key, keys[2]),
    ) + indicator(!key_before(key, keys[3]))
}

/// A suit's label lies between the number of suits before its key and the
/// number of suits not after it.
proof fn lemma_label_bounds(keys: Seq<(Seq<u8>, Seq<u8>)>, suit: int)
    requires
        0 <= suit < 4,
    ensures
        suits_before(keys, keys[suit]) <= suit_label(keys, suit) < suits_not_after(
            keys,
            keys[suit],
        ),
{
    lemma_key_before_order(keys[0], keys[suit], keys[0]);
    lemma_key_before_order(keys[1], keys[suit], keys[1]);
    lemma_key_before_order(keys[2], keys[suit], keys[2]);
    lemma_key_before_order(keys[3], keys[suit], keys[3]);
    lemma_key_before_order(keys[suit], keys[suit], keys[suit]);
    assert(!suit_precedes(keys, suit, suit));
}

/// The two counts do not change when the suits are renamed.
proof fn lemma_counts_of_renamed(
    keys: Seq<(Seq<u8>, Seq<u8>)>,
    renamed: Seq<(Seq<u8>, Seq<u8>)>,
    perm: Seq<u8>,
    key: (Seq<u8>, Seq<u8>),
)
    requires
        is_suit_permutation(perm),
        forall|s: int| 0 <= s < 4 ==> renamed[#[trigger] perm[s] as int] == keys[s],
    ensures
        suits_before(renamed, key) == suits_before(keys, key),
        suits_not_after(renamed, key) == suits_not_after(keys, key),
{
    lemma_labelled_suit(perm, 0);
    lemma_labelled_suit(perm, 1);
    lemma_labelled_suit(perm, 2);
    lemma_labelled_suit(perm, 3);
    let s0 = labelled_suit(perm, 0);
    let s1 = labelled_suit(perm, 1);
    let s2 = labelled_suit(perm, 2);
    let s3 = labelled_suit(perm, 3);
    assert(renamed[0] == keys[s0]) by {
        assert(renamed[perm[s0] as int] == keys[s0]);
    }
    assert(renamed[1] == keys[s1]) by {
        assert(renamed[perm[s1] as int] == keys[s1]);
    }
    assert(renamed[2] == keys[s2]) by {
        assert(renamed[perm[s2] as int] == keys[s2]);
    }
    assert(renamed[3] == keys[s3]) by {
        assert(renamed[perm[s3] as int] == keys[s3]);
    }
    assert(s0 != s1 && s0 != s2 && s0 != s3 && s1 != s2 && s1 != s3 && s2 != s3);
}

/// Fewer suits do not come after a key than come before a later key.
proof fn lemma_counts_step(keys: Seq<(Seq<u8>, Seq<u8>)>, a: (Seq<u8>, Seq<u8>), b: (Seq<u8>, Seq<u8>))
    requires
        key_before(a, b),
    ensures
        suits_not_after(keys, a) <= suits_before(keys, b),
{
    lemma_key_before_order(keys[0], a, b);
    lemma_key_before_order(a, keys[0], b);
    lemma_key_before_order(keys[1], a, b);
    lemma_key_before_order(a, keys[1], b);
    lemma_key_before_order(keys[2], a, b);
    lemma_key_before_order(a, keys[2], b);
    lemma_key_before_order(keys[3], a, b);
    lemma_key_before_order(a, keys[3], b);
}

/// Suits that get the same label before and after a renaming have the same key.
pub proof fn lemma_same_label_same_key(
    keys: Seq<(Seq<u8>, Seq<u8>)>,
    renamed: Seq<(Seq<u8>, Seq<u8>)>,
    perm: Seq<u8>,
    a: int,
    b: int,
)
    requires
        is_suit_permutation(perm),
        forall|s: int| 0 <= s < 4 ==> renamed[#[trigger] perm[s] as int] == keys[s],
        0 <= a < 4,
        0 <= b < 4,
        suit_label(keys, a) == suit_label(renamed, perm[b] as int),
    ensures
        keys[a] == keys[b],
{
    let ka = keys[a];
    let kb = keys[b];
    assert(renamed[perm[b] as int] == kb);
    lemma_label_bounds(keys, a);
    lemma_label_bounds(renamed, perm[b] as int);
    lemma_counts_of_renamed(keys, renamed, perm, kb);
    lemma_key_before_order(ka, kb, ka);
    if key_before(ka, kb) {
        lemma_counts_step(keys, ka, kb);
    }
    if key_before(kb, ka) {
        lemma_counts_step(keys, kb, ka);
    }
}

/// Two ways of naming the suits of a street give the same street in order, if
/// suits that get the same name hold the same ranks in that street.
proof fn lemma_street_symmetry(
    street: Seq<Card>,
    perm: Seq<u8>,
    labels: Seq<u8>,
    renamed_labels: Seq<u8>,
)
    requires
        all_valid(street),
        is_suit_permutation(perm),
        is_suit_permutation(labels),
        is_suit_permutation(renamed_labels),
        forall|a: int, b: int|
            0 <= a < 4 && 0 <= b < 4 && #[trigger] labels[a] == renamed_labels[#[trigger] perm[b] as int]
                ==> suit_ranks(sorted_cards(street), a as u8) == suit_ranks(
                sorted_cards(street),
                b as u8,
            ),
    ensures
        sorted_cards(relabel(sorted_cards(relabel(street, perm)), renamed_labels)) == sorted_cards(
            relabel(sorted_cards(street), labels),
        ),
{
    broadcast use vstd::multiset::group_multiset_axioms;
    broadcast use vstd::seq_lib::group_to_multiset_ensures;

    let sorted = sorted_cards(street);
    let turned = relabel(street, perm);
    let turned_sorted = sorted_cards(turned);
    let left = relabel(turned_sorted, renamed_labels);
    let right = relabel(sorted, labels);
    lemma_sorted_cards(street);
    lemma_sorted_cards(turned);
    lemma_sorted_valid(street);
    lemma_relabel_valid(street, perm);
    lemma_sorted_valid(turned);
    lemma_relabel_valid(turned_sorted, renamed_labels);
    lemma_relabel_valid(sorted, labels);
    assert forall|card: Card| left.to_multiset().count(card) == right.to_multiset().count(card) by {
        if card.suit < 4 {
            let j = card.suit as int;
            lemma_labelled_suit(labels, j);
            lemma_labelled_suit(renamed_labels, j);
            let a = labelled_suit(labels, j);
            let turned_suit = labelled_suit(renamed_labels, j);
            lemma_labelled_suit(perm, turned_suit);
            let b = labelled_suit(perm, turned_suit);
            assert(labels[a] == renamed_labels[perm[b] as int]);
            lemma_relabel_count(sorted, labels, a as u8, card.rank);
            lemma_relabel_count(turned_sorted, renamed_labels, turned_suit as u8, card.rank);
            lemma_relabel_count(street, perm, b as u8, card.rank);
            lemma_suit_ranks_count(sorted, a as u8, card.rank);
            lemma_suit_ranks_count(sorted, b as u8, card.rank);
        } else {
            if left.to_multiset().count(card) > 0 {
                assert(left.contains(card));
                let i = choose|i: int| 0 <= i < left.len() && left[i] == card;
                assert(left[i].is_valid());
            }
            if right.to_multiset().count(card) > 0 {
                assert(right.contains(card));
                let i = choose|i: int| 0 <= i < right.len() && right[i] == card;
                assert(right[i].is_valid());
            }
        }
    }
    assert(left.to_multiset() =~= right.to_multiset());
    lemma_sorted_cards_of_same_cards(left, right);
}

/// Symmetry invariance: a hand and the hand under other suit names have the
/// same canonical form.
pub proof fn lemma_canonical_symmetric(cards: Seq<Card>, perm: Seq<u8>, streets: bool)
    requires
        all_valid(cards),
        is_suit_permutation(perm),
    ensures
        canonical_cards(relabel(cards, perm), streets) == canonical_cards(cards, streets),
{
    let turned = relabel(cards, perm);
    let sorted = sort_hand(cards, streets);
    let turned_sorted = sort_hand(turned, streets);
    let keys = suit_keys(sorted, streets);
    let turned_keys = suit_keys(turned_sorted, streets);
    let labels = suit_labels(keys);
    let turned_labels = suit_labels(turned_keys);
    lemma_suit_labels(keys);
    lemma_suit_labels(turned_keys);
    lemma_relabel_valid(cards, perm);
    crate::order::lemma_sort_hand(cards, streets);
    crate::order::lemma_sort_hand(turned, streets);
    if streets && cards.len() > 2 {
        let hole = cards.take(2);
        let board = cards.skip(2);
        assert(all_valid(hole)) by {
            assert forall|i: int| 0 <= i < hole.len() implies (#[trigger] hole[i]).is_valid() by {
                assert(hole[i] == cards[i]);
            }
        }
        assert(all_valid(board)) by {
            assert forall|i: int| 0 <= i < board.len() implies (#[trigger] board[i]).is_valid() by {
                assert(board[i] == cards[i + 2]);
            }
        }
        lemma_sorted_cards(hole);
        lemma_sorted_cards(board);
        assert(turned.take(2) =~= relabel(hole, perm));
        assert(turned.skip(2) =~= relabel(board, perm));
        lemma_sorted_cards(relabel(hole, perm));
        lemma_sorted_cards(relabel(board, perm));
        assert(sorted.take(2) =~= sorted_cards(hole));
        assert(turned_sorted.take(2) =~= sorted_cards(relabel(hole, perm)));
        assert forall|s: int| 0 <= s < 4 implies turned_keys[#[trigger] perm[s] as int]
            == keys[s] by {
            lemma_suit_ranks_of_relabelled_hand(cards, perm, streets, s as u8);
            lemma_suit_ranks_of_relabelled(hole, perm, s as u8);
        }
        assert forall|a: int, b: int|
            0 <= a < 4 && 0 <= b < 4 && #[trigger] labels[a] == turned_labels[#[trigger] perm[b] as int] implies suit_ranks(
            sorted_cards(hole),
            a as u8,
        ) == suit_ranks(sorted_cards(hole), b as u8) && suit_ranks(sorted_cards(board), a as u8)
            == suit_ranks(sorted_cards(board), b as u8) by {
            lemma_same_label_same_key(keys, turned_keys, perm, a, b);
            assert(keys[a] == keys[b]);
            let ha = suit_ranks(sorted_cards(hole), a as u8);
            let hb = suit_ranks(sorted_cards(hole), b as u8);
            let ba = suit_ranks(sorted_cards(board), a as u8);
            let bb = suit_ranks(sorted_cards(board), b as u8);
            lemma_suit_ranks_concat(sorted_cards(hole), sorted_cards(board), a as u8);
            lemma_suit_ranks_concat(sorted_cards(hole), sorted_cards(board), b as u8);
            assert(keys[a].0 == ha + ba);
            assert(keys[b].0 == hb + bb);
            assert(keys[a].1 == ha);
            assert(keys[b].1 == hb);
            assert(ba =~= (ha + ba).skip(ha.len() as int));
            assert(bb =~= (hb + bb).skip(hb.len() as int));
        }
        lemma_street_symmetry(hole, perm, labels, turned_labels);
        lemma_street_symmetry(board, perm, labels, turned_labels);
        assert(relabel(sorted, labels).take(2) =~= relabel(sorted_cards(hole), labels));
        assert(relabel(sorted, labels).skip(2) =~= relabel(sorted_cards(board), labels));
        assert(relabel(turned_sorted, turned_labels).take(2) =~= relabel(
            sorted_cards(relabel(hole, perm)),
            turned_labels,
        ));
        assert(relabel(turned_sorted, turned_labels).skip(2) =~= relabel(
            sorted_cards(relabel(board, perm)),
            turned_labels,
        ));
    } else {
        lemma_sorted_cards(cards);
        lemma_sorted_cards(turned);
        assert forall|s: int| 0 <= s < 4 implies turned_keys[#[trigger] perm[s] as int]
            == keys[s] by {
            lemma_suit_ranks_of_relabelled_hand(cards, perm, streets, s as u8);
        }
        assert forall|a: int, b: int|
            0 <= a < 4 && 0 <= b < 4 && #[trigger] labels[a] == turned_labels[#[trigger] perm[b] as int] implies suit_ranks(
            sorted_cards(cards),
            a as u8,
        ) == suit_ranks(sorted_cards(cards), b as u8) by {
            lemma_same_label_same_key(keys, turned_keys, perm, a, b);
            assert(keys[a].0 == keys[b].0);
        }
        lemma_street_symmetry(cards, perm, labels, turned_labels);
    }
}

/// Hands with the same cards, each as often, have the same cards under new
/// suit names.
pub proof fn lemma_relabel_same_cards(a: Seq<Card>, b: Seq<Card>, labels: Seq<u8>)
    requires
        all_valid(a),
        all_valid(b),
        is_suit_permutation(labels),
        a.to_multiset() == b.to_multiset(),
    ensures
        relabel(a, labels).to_multiset() == relabel(b, labels).to_multiset(),
{
    broadcast use vstd::multiset::group_multiset_axioms;
    broadcast use vstd::seq_lib::group_to_multiset_ensures;

    let left = relabel(a, labels);
    let right = relabel(b, labels);
    lemma_relabel_valid(a, labels);
    lemma_relabel_valid(b, labels);
    assert forall|card: Card| left.to_multiset().count(card) == right.to_multiset().count(card) by {
        if card.suit < 4 {
            lemma_labelled_suit(labels, card.suit as int);
            let s = labelled_suit(labels, card.suit as int);
            lemma_relabel_count(a, labels, s as u8, card.rank);
            lemma_relabel_count(b, labels, s as u8, card.rank);
        } else {
            if left.to_multiset().count(card) > 0 {
                assert(left.contains(card));
                let i = choose|i: int| 0 <= i < left.len() && left[i] == card;
                assert(left[i].is_valid());
            }
            if right.to_multiset().count(card) > 0 {
                assert(right.contains(card));
                let i = choose|i: int| 0 <= i < right.len() && right[i] == card;
                assert(right[i].is_valid());
            }
        }
    }
    assert(left.to_multiset() =~= right.to_multiset());
}

/// The names that undo a renaming.
pub open spec fn inverse_labels(labels: Seq<u8>) -> Seq<u8> {
    Seq::new(4, |label: int| labelled_suit(labels, label) as u8)
}

/// One canonical form, one class: where streets are not told apart, two hands
/// have the same canonical form exactly if one holds the cards of the other
/// under some renaming of the suits.
pub proof fn lemma_canonical_classes(a: Seq<Card>, b: Seq<Card>)
    requires
        all_valid(a),
        all_valid(b),
    ensures
        canonical_cards(a, false) == canonical_cards(b, false) <==> exists|perm: Seq<u8>| #[trigger]
            is_suit_permutation(perm) && relabel(a, perm).to_multiset() == b.to_multiset(),
{
    if exists|perm: Seq<u8>| #[trigger]
        is_suit_permutation(perm) && relabel(a, perm).to_multiset() == b.to_multiset() {
        let perm = choose|perm: Seq<u8>| #[trigger]
            is_suit_permutation(perm) && relabel(a, perm).to_multiset() == b.to_multiset();
        lemma_canonical_symmetric(a, perm, false);
        lemma_sorted_cards_of_same_cards(relabel(a, perm), b);
    }
    if canonical_cards(a, false) == canonical_cards(b, false) {
        let sorted_a = sorted_cards(a);
        let sorted_b = sorted_cards(b);
        let labels_a = suit_labels(suit_keys(sorted_a, false));
        let labels_b = suit_labels(suit_keys(sorted_b, false));
        let back = inverse_labels(labels_b);
        lemma_suit_labels(suit_keys(sorted_a, false));
        lemma_suit_labels(suit_keys(sorted_b, false));
        lemma_labelled_suit(labels_b, 0);
        lemma_labelled_suit(labels_b, 1);
        lemma_labelled_suit(labels_b, 2);
        lemma_labelled_suit(labels_b, 3);
        assert(is_suit_permutation(back));
        let perm = Seq::new(4, |s: int| back[labels_a[s] as int]);
        assert(is_suit_permutation(perm)) by {
            assert(labels_a[0] != labels_a[1] && labels_a[0] != labels_a[2] && labels_a[0]
                != labels_a[3] && labels_a[1] != labels_a[2] && labels_a[1] != labels_a[3]
                && labels_a[2] != labels_a[3]);
        }
        lemma_sorted_cards(a);
        lemma_sorted_cards(b);
        lemma_sorted_valid(a);
        lemma_sorted_valid(b);
        lemma_relabel_valid(a, labels_a);
        lemma_relabel_valid(b, labels_b);
        lemma_relabel_valid(sorted_a, labels_a);
        lemma_relabel_valid(sorted_b, labels_b);
        lemma_relabel_same_cards(a, sorted_a, labels_a);
        lemma_relabel_same_cards(b, sorted_b, labels_b);
        lemma_sorted_cards(relabel(sorted_a, labels_a));
        lemma_sorted_cards(relabel(sorted_b, labels_b));
        assert(relabel(a, labels_a).to_multiset() == relabel(b, labels_b).to_multiset());
        lemma_relabel_same_cards(relabel(a, labels_a), relabel(b, labels_b), back);
        assert(relabel(relabel(a, labels_a), back) =~= relabel(a, perm)) by {
            assert forall|i: int| 0 <= i < a.len() implies relabel(relabel(a, labels_a), back)[i]
                == relabel(a, perm)[i] by {
                assert(a[i].is_valid());
            }
        }
        assert(relabel(relabel(b, labels_b), back) =~= b) by {
            assert forall|i: int| 0 <= i < b.len() implies relabel(relabel(b, labels_b), back)[i]
                == b[i] by {
                assert(b[i].is_valid());
                let s = b[i].suit as int;
                assert(labels_b[labelled_suit(labels_b, labels_b[s] as int)] == labels_b[s]);
                let t = labelled_suit(labels_b, labels_b[s] as int);
                if t < s {
                    assert(labels_b[t] != labels_b[s]);
                } else if s < t {
                    assert(labels_b[s] != labels_b[t]);
                }
            }
        }
        assert(is_suit_permutation(perm) && relabel(a, perm).to_multiset() == b.to_multiset());
    }
}

} // verus!
