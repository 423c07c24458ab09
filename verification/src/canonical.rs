//! Canonical hands: one representative for all hands that differ only by a
//! renaming of the suits and, within a street, by the order of the cards.

use crate::card::{all_valid, Card};
use crate::error::HandError;
use crate::order::{
    card_le, is_sorted, lemma_sort_hand, sort_canonical, sort_hand, sorted_correctly_hand,
    suit_first_greater_than,
};
use crate::ranks::{
    by_suits, hole_ranks, key_before, key_lists, lemma_key_before_order,
    lemma_ranks_before_order, lemma_suit_labels, lemma_suit_precedes_order, lex_lt, rank_lists,
    ranks_before, suit_keys, suit_label, suit_labels, suit_precedes, suit_ranks,
};
use vstd::prelude::*;

verus! {

/// A card under new suit labels.
pub open spec fn relabel_card(card: Card, labels: Seq<u8>) -> Card {
    Card { rank: card.rank, suit: labels[card.suit as int] }
}

/// A hand under new suit labels.
pub open spec fn relabel(cards: Seq<Card>, labels: Seq<u8>) -> Seq<Card> {
    Seq::new(cards.len(), |i: int| relabel_card(cards[i], labels))
}

/// The canonical form of a hand: the hand is put in order, its suits are given
/// the labels that the order of their keys asks for, and the result is put in
/// order again.
pub open spec fn canonical_cards(cards: Seq<Card>, streets: bool) -> Seq<Card> {
    let sorted = sort_hand(cards, streets);
    sort_hand(relabel(sorted, suit_labels(suit_keys(sorted, streets))), streets)
}

/// Whether no suit would be labelled before the suit just below it.
pub open spec fn suits_in_order(lists: Seq<Seq<u8>>) -> bool {
    forall|s: int| 1 <= s < 4 ==> !ranks_before(#[trigger] lists[s], lists[s - 1])
}

/// Whether a hand is written as a canonical hand is: in order, and with suits
/// that hold no fewer cards than the suits above them and, where they hold as
/// many, ranks that do not come later in the dictionary.
pub open spec fn is_canonical_shape(cards: Seq<Card>, streets: bool) -> bool {
    sorted_correctly_hand(cards, streets) && suits_in_order(by_suits(cards))
}

/// Whether no suit's key comes before the key of the suit just below it.
pub open spec fn keys_in_order(keys: Seq<(Seq<u8>, Seq<u8>)>) -> bool {
    forall|s: int| 1 <= s < 4 ==> !key_before(#[trigger] keys[s], keys[s - 1])
}

/// Whether a hand is written as a canonical form is: of canonical shape, and
/// with suits that hold the same ranks in the order of the ranks of their hole
/// cards.
pub open spec fn is_canonical_form(cards: Seq<Card>, streets: bool) -> bool {
    sorted_correctly_hand(cards, streets) && keys_in_order(suit_keys(cards, streets))
}

/// Whether suits that hold the same ranks hold the same ranks among the hole
/// cards.
pub open spec fn tied_suits_split_alike(cards: Seq<Card>) -> bool {
    forall|a: int, b: int|
        0 <= a < 4 && 0 <= b < 4 && #[trigger] suit_ranks(cards, a as u8) == #[trigger] suit_ranks(
            cards,
            b as u8,
        ) ==> suit_ranks(cards.take(2), a as u8) == suit_ranks(cards.take(2), b as u8)
}

/// Whether a hand is canonical: of canonical shape and without a card that
/// occurs twice.
pub open spec fn is_canonical_hand(cards: Seq<Card>, streets: bool) -> bool {
    is_canonical_shape(cards, streets) && cards.no_duplicates()
}

/// Whether `a` comes before `b` as words do in a dictionary.
pub fn lex_less(a: &Vec<u8>, b: &Vec<u8>) -> (less: bool)
    ensures
        less == lex_lt(a@, b@),
{
    let mut i: usize = 0;
    proof {
        assert(a@.skip(0) =~= a@);
        assert(b@.skip(0) =~= b@);
    }
    while i < a.len() && i < b.len()
        invariant
            i <= a@.len(),
            i <= b@.len(),
            lex_lt(a@, b@) == lex_lt(a@.skip(i as int), b@.skip(i as int)),
        decreases a@.len() - i,
    {
        proof {
            assert(a@.skip(i as int).drop_first() =~= a@.skip(i + 1));
            assert(b@.skip(i as int).drop_first() =~= b@.skip(i + 1));
        }
        if a[i] != b[i] {
            return a[i] < b[i];
        }
        i = i + 1;
    }
    i < b.len()
}

/// Whether a suit with the ranks `a` is labelled before one with the ranks `b`.
pub fn comes_before(a: &Vec<u8>, b: &Vec<u8>) -> (before: bool)
    ensures
        before == ranks_before(a@, b@),
{
    a.len() > b.len() || (a.len() == b.len() && lex_less(a, b))
}

/// The ranks of the cards of one suit, in the order in which the hand holds them.
pub fn ranks_of_suit(cards: &[Card], suit: u8) -> (ranks: Vec<u8>)
    ensures
        ranks@ == suit_ranks(cards@, suit),
{
    let mut ranks: Vec<u8> = Vec::new();
    let mut i: usize = 0;
    proof {
        assert(cards@.take(0) =~= Seq::<Card>::empty());
    }
    while i < cards.len()
        invariant
            i <= cards@.len(),
            ranks@ == suit_ranks(cards@.take(i as int), suit),
        decreases cards@.len() - i,
    {
        proof {
            assert(cards@.take(i + 1).drop_last() =~= cards@.take(i as int));
        }
        if cards[i].suit == suit {
            ranks.push(cards[i].rank);
        }
        i = i + 1;
    }
    proof {
        assert(cards@.take(i as int) =~= cards@);
    }
    ranks
}

/// The rank lists of the four suits.
pub fn ranks_by_suit(cards: &[Card]) -> (lists: Vec<Vec<u8>>)
    ensures
        lists@.len() == 4,
        rank_lists(lists@) == by_suits(cards@),
{
    let mut lists: Vec<Vec<u8>> = Vec::new();
    let mut suit: u8 = 0;
    while suit < 4
        invariant
            suit <= 4,
            lists@.len() == suit,
            forall|s: int| 0 <= s < suit ==> (#[trigger] lists@[s])@ == suit_ranks(cards@, s as u8),
        decreases 4 - suit,
    {
        lists.push(ranks_of_suit(cards, suit));
        suit = suit + 1;
    }
    proof {
        assert(rank_lists(lists@) =~= by_suits(cards@));
    }
    lists
}

/// Whether a suit with the ranks `a`, of which `a_hole` are hole cards, is
/// labelled before one with the ranks `b`, of which `b_hole` are hole cards.
pub fn key_comes_before(a: &Vec<u8>, a_hole: &Vec<u8>, b: &Vec<u8>, b_hole: &Vec<u8>) -> (before:
    bool)
    ensures
        before == key_before((a@, a_hole@), (b@, b_hole@)),
{
    proof {
        lemma_ranks_before_order(a@, b@, a@);
    }
    if comes_before(a, b) {
        true
    } else if comes_before(b, a) {
        false
    } else {
        comes_before(a_hole, b_hole)
    }
}

/// The new label of each suit: the suit with the most cards gets 0, and of
/// suits with as many cards the one whose ranks come first in the dictionary
/// goes first. Suits that hold the same ranks are told apart in the same way
/// by the ranks in `holes`, and suits that are alike there too keep their order.
pub fn label_suits(lists: &Vec<Vec<u8>>, holes: &Vec<Vec<u8>>) -> (labels: Vec<u8>)
    requires
        lists@.len() == 4,
        holes@.len() == 4,
    ensures
        labels@ == suit_labels(key_lists(lists@, holes@)),
{
    let ghost keys = key_lists(lists@, holes@);
    let mut labels: Vec<u8> = vec![0u8, 0u8, 0u8, 0u8];
    let mut used: Vec<bool> = vec![false, false, false, false];
    let mut new_suit: u8 = 0;
    proof {
        lemma_suit_labels(keys);
    }
    while new_suit < 4
        invariant
            new_suit <= 4,
            lists@.len() == 4,
            holes@.len() == 4,
            keys == key_lists(lists@, holes@),
            labels@.len() == 4,
            used@.len() == 4,
            forall|s: int| 0 <= s < 4 ==> (#[trigger] used@[s] <==> suit_label(keys, s) < new_suit),
            forall|s: int| 0 <= s < 4 && used@[s] ==> #[trigger] labels@[s] == suit_label(keys, s),
        decreases 4 - new_suit,
    {
        let mut best: usize = 4;
        let mut s: usize = 0;
        proof {
            lemma_suit_precedes_order(keys);
        }
        while s < 4
            invariant
                s <= 4,
                best <= 4,
                lists@.len() == 4,
                holes@.len() == 4,
                used@.len() == 4,
                keys == key_lists(lists@, holes@),
                best < 4 ==> !used@[best as int] && best < s,
                forall|t: int|
                    0 <= t < s && !#[trigger] used@[t] ==> best < 4 && (t == best || suit_precedes(
                        keys,
                        best as int,
                        t,
                    )),
            decreases 4 - s,
        {
            if !used[s] {
                if best == 4 {
                    best = s;
                } else {
                    proof {
                        lemma_suit_precedes_order(keys);
                        lemma_key_before_order(keys[s as int], keys[best as int], keys[s as int]);
                    }
                    if key_comes_before(&lists[s], &holes[s], &lists[best], &holes[best]) {
                        proof {
                            assert(suit_precedes(keys, s as int, best as int));
                            assert forall|t: int| 0 <= t < s && !#[trigger] used@[t] implies t
                                == s || suit_precedes(keys, s as int, t) by {
                                if t != best {
                                    assert(suit_precedes(keys, best as int, t));
                                }
                            }
                        }
                        best = s;
                    } else {
                        proof {
                            assert(suit_precedes(keys, best as int, s as int));
                        }
                    }
                }
            }
            s = s + 1;
        }
        proof {
            lemma_suit_labels(keys);
            let next = crate::ranks::suit_of_label(keys, new_suit as int);
            assert(!used@[next]);
            assert(best < 4);
            if best != next {
                assert(suit_precedes(keys, best as int, next));
            }
            assert(suit_label(keys, best as int) == new_suit);
            assert forall|t: int| 0 <= t < 4 && t != best implies suit_label(keys, t)
                != new_suit by {
                assert(suit_precedes(keys, t, best as int) || suit_precedes(keys, best as int, t));
            }
        }
        labels.set(best, new_suit);
        used.set(best, true);
        new_suit = new_suit + 1;
    }
    proof {
        assert(labels@ =~= suit_labels(keys));
    }
    labels
}

/// The ranks of the hole cards of each suit, where streets are told apart and
/// there is a board; no ranks otherwise.
pub fn hole_ranks_by_suit(cards: &[Card], streets: bool) -> (holes: Vec<Vec<u8>>)
    ensures
        holes@.len() == 4,
        forall|s: int| 0 <= s < 4 ==> (#[trigger] holes@[s])@ == hole_ranks(cards@, streets, s as u8),
{
    if streets && cards.len() > 2 {
        let hole = vstd::slice::slice_subrange(cards, 0, 2);
        proof {
            assert(cards@.subrange(0, 2) =~= cards@.take(2));
        }
        let holes = ranks_by_suit(hole);
        proof {
            assert forall|s: int| 0 <= s < 4 implies (#[trigger] holes@[s])@ == hole_ranks(
                cards@,
                streets,
                s as u8,
            ) by {
                assert(rank_lists(holes@)[s] == by_suits(cards@.take(2))[s]);
            }
        }
        holes
    } else {
        let mut holes: Vec<Vec<u8>> = Vec::new();
        let mut s: usize = 0;
        while s < 4
            invariant
                s <= 4,
                holes@.len() == s,
                forall|t: int| 0 <= t < s ==> (#[trigger] holes@[t])@ == Seq::<u8>::empty(),
            decreases 4 - s,
        {
            holes.push(Vec::new());
            s = s + 1;
        }
        holes
    }
}

/// Whether some card occurs twice in the hand.
pub fn contains_duplicates(cards: &[Card]) -> (found: bool)
    ensures
        found == !cards@.no_duplicates(),
{
    let mut i: usize = 0;
    while i < cards.len()
        invariant
            i <= cards@.len(),
            forall|p: int, q: int| 0 <= p < i && p < q < cards@.len() ==> cards@[p] != cards@[q],
        decreases cards@.len() - i,
    {
        let mut j: usize = i + 1;
        while j < cards.len()
            invariant
                i < j <= cards@.len(),
                forall|q: int| i < q < j ==> cards@[i as int] != cards@[q],
            decreases cards@.len() - j,
        {
            if cards[i] == cards[j] {
                return true;
            }
            j = j + 1;
        }
        i = i + 1;
    }
    proof {
        assert forall|p: int, q: int| 0 <= p < cards@.len() && 0 <= q < cards@.len() && p
            != q implies cards@[p] != cards@[q] by {
            if p < q {
            } else {
                assert(cards@[q] != cards@[p]);
            }
        }
    }
    false
}

/// Whether the cards from `from` on stand in order.
fn sorted_from(cards: &[Card], from: usize) -> (sorted: bool)
    requires
        from <= cards@.len(),
    ensures
        sorted == is_sorted(cards@.skip(from as int)),
{
    let ghost tail = cards@.skip(from as int);
    if cards.len() - from < 2 {
        return true;
    }
    let mut i: usize = from;
    while i < cards.len() - 1
        invariant
            from <= i < cards@.len(),
            cards@.len() >= 2,
            tail == cards@.skip(from as int),
            forall|p: int, q: int| 0 <= p < q <= i - from ==> card_le(#[trigger] tail[p], #[trigger] tail[q]),
        decreases cards@.len() - i,
    {
        if suit_first_greater_than(&cards[i], &cards[i + 1]) {
            proof {
                assert(tail[i - from] == cards@[i as int]);
                assert(tail[i - from + 1] == cards@[i + 1]);
            }
            return false;
        }
        proof {
            assert forall|p: int, q: int| 0 <= p < q <= i + 1 - from implies card_le(
                #[trigger] tail[p],
                #[trigger] tail[q],
            ) by {
                if q == i + 1 - from {
                    assert(tail[q] == cards@[i + 1]);
                    assert(tail[i - from] == cards@[i as int]);
                    if p < i - from {
                        assert(card_le(tail[p], tail[i - from]));
                    }
                }
            }
        }
        i = i + 1;
    }
    true
}

/// Whether a hand stands in the order in which a canonical hand is written.
pub fn sorted_correctly(cards: &[Card], streets: bool) -> (sorted: bool)
    ensures
        sorted == sorted_correctly_hand(cards@, streets),
{
    if streets {
        if cards.len() >= 2 && suit_first_greater_than(&cards[0], &cards[1]) {
            return false;
        }
        if cards.len() > 2 {
            return sorted_from(cards, 2);
        }
        true
    } else {
        proof {
            assert(cards@.skip(0) =~= cards@);
        }
        sorted_from(cards, 0)
    }
}

/// Whether a hand is canonical.
pub fn is_canonical(cards: &[Card], streets: bool) -> (canonical: bool)
    ensures
        canonical == is_canonical_hand(cards@, streets),
{
    if !sorted_correctly(cards, streets) {
        return false;
    }
    if contains_duplicates(cards) {
        return false;
    }
    let lists = ranks_by_suit(cards);
    let ghost keys = by_suits(cards@);
    let mut s: usize = 1;
    while s < 4
        invariant
            1 <= s <= 4,
            lists@.len() == 4,
            keys == rank_lists(lists@),
            keys == by_suits(cards@),
            forall|t: int| 1 <= t < s ==> !ranks_before(#[trigger] keys[t], keys[t - 1]),
        decreases 4 - s,
    {
        if comes_before(&lists[s], &lists[s - 1]) {
            proof {
                assert(ranks_before(keys[s as int], keys[s - 1]));
            }
            return false;
        }
        s = s + 1;
    }
    true
}

/// The hand under the labels, card by card.
fn relabel_cards(cards: &Vec<Card>, labels: &Vec<u8>) -> (renamed: Vec<Card>)
    requires
        labels@.len() == 4,
        all_valid(cards@),
    ensures
        renamed@ == relabel(cards@, labels@),
{
    let mut renamed: Vec<Card> = Vec::new();
    let mut i: usize = 0;
    while i < cards.len()
        invariant
            i <= cards@.len(),
            labels@.len() == 4,
            all_valid(cards@),
            renamed@.len() == i,
            forall|j: int| 0 <= j < i ==> renamed@[j] == relabel_card(cards@[j], labels@),
        decreases cards@.len() - i,
    {
        let card = cards[i];
        assert(cards@[i as int].is_valid());
        renamed.push(Card { rank: card.rank, suit: labels[card.suit as usize] });
        i = i + 1;
    }
    proof {
        assert(renamed@ =~= relabel(cards@, labels@));
    }
    renamed
}

/// The canonical form of a hand. The form is held to its own check before it
/// is handed out: the check fails, and a fault is returned, exactly for a hand
/// that holds a card twice.
pub fn canonical_hand(cards: &[Card], streets: bool) -> (result: Result<Vec<Card>, HandError>)
    requires
        all_valid(cards@),
    ensures
        match result {
            Ok(canonical) => cards@.no_duplicates() && canonical@ == canonical_cards(
                cards@,
                streets,
            ) && is_canonical_hand(canonical@, streets) && all_valid(canonical@)
                && canonical@.len() == cards@.len(),
            Err(e) => !cards@.no_duplicates() && e
                == HandError::CanonicalizationInvariantViolation,
        },
{
    proof {
        crate::laws::lemma_canonical_is_canonical(cards@, streets);
        crate::laws::lemma_canonical_valid(cards@, streets);
    }
    let sorted = sort_canonical(cards, streets);
    proof {
        lemma_sort_hand(cards@, streets);
        assert forall|i: int| 0 <= i < sorted@.len() implies (#[trigger] sorted@[i]).is_valid() by {
            assert(sorted@.contains(sorted@[i]));
            assert(cards@.contains(sorted@[i]));
        }
    }
    let lists = ranks_by_suit(sorted.as_slice());
    let holes = hole_ranks_by_suit(sorted.as_slice(), streets);
    let labels = label_suits(&lists, &holes);
    proof {
        assert(key_lists(lists@, holes@) =~= suit_keys(sorted@, streets)) by {
            assert forall|s: int| 0 <= s < 4 implies key_lists(lists@, holes@)[s] == suit_keys(
                sorted@,
                streets,
            )[s] by {
                assert(rank_lists(lists@)[s] == by_suits(sorted@)[s]);
            }
        }
    }
    let renamed = relabel_cards(&sorted, &labels);
    let canonical = sort_canonical(renamed.as_slice(), streets);
    if !is_canonical(canonical.as_slice(), streets) {
        return Err(HandError::CanonicalizationInvariantViolation);
    }
    Ok(canonical)
}

} // verus!
