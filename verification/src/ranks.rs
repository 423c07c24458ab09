//! The ranks that a hand holds in each suit, and the order in which suits are
//! given their new labels.

use crate::card::Card;
use vstd::prelude::*;

verus! {

/// The ranks of the cards of one suit, in the order in which the hand holds them.
pub open spec fn suit_ranks(cards: Seq<Card>, suit: u8) -> Seq<u8>
    decreases cards.len(),
{
    if cards.len() == 0 {
        Seq::empty()
    } else if cards.last().suit == suit {
        suit_ranks(cards.drop_last(), suit).push(cards.last().rank)
    } else {
        suit_ranks(cards.drop_last(), suit)
    }
}

/// The rank lists of the four suits.
pub open spec fn by_suits(cards: Seq<Card>) -> Seq<Seq<u8>> {
    Seq::new(4, |s: int| suit_ranks(cards, s as u8))
}

/// The rank lists that a vector of vectors holds.
pub open spec fn rank_lists(lists: Seq<Vec<u8>>) -> Seq<Seq<u8>> {
    Seq::new(lists.len(), |s: int| lists[s]@)
}

/// Whether `a` comes before `b` as words do in a dictionary.
pub open spec fn lex_lt(a: Seq<u8>, b: Seq<u8>) -> bool
    decreases a.len(),
{
    if a.len() == 0 {
        b.len() > 0
    } else if b.len() == 0 {
        false
    } else if a[0] != b[0] {
        a[0] < b[0]
    } else {
        lex_lt(a.drop_first(), b.drop_first())
    }
}

/// Whether a suit with the ranks `a` is labelled before one with the ranks
/// `b`: the longer list first, and of two lists of one length the one that
/// comes first in the dictionary.
pub open spec fn ranks_before(a: Seq<u8>, b: Seq<u8>) -> bool {
    a.len() > b.len() || (a.len() == b.len() && lex_lt(a, b))
}

/// Whether a suit with the key `a` is labelled before one with the key `b`.
/// A key holds the ranks of all cards of the suit and, after them, the ranks
/// of its hole cards: the ranks of all cards decide, and between suits that
/// hold the same ranks the ranks of the hole cards.
pub open spec fn key_before(a: (Seq<u8>, Seq<u8>), b: (Seq<u8>, Seq<u8>)) -> bool {
    ranks_before(a.0, b.0) || (a.0 == b.0 && ranks_before(a.1, b.1))
}

/// The ranks of the hole cards of one suit, where streets are told apart and
/// there is a board; no ranks otherwise.
pub open spec fn hole_ranks(cards: Seq<Card>, streets: bool, suit: u8) -> Seq<u8> {
    if streets && cards.len() > 2 {
        suit_ranks(cards.take(2), suit)
    } else {
        Seq::empty()
    }
}

/// The keys of the four suits of a hand.
pub open spec fn suit_keys(cards: Seq<Card>, streets: bool) -> Seq<(Seq<u8>, Seq<u8>)> {
    Seq::new(4, |s: int| (suit_ranks(cards, s as u8), hole_ranks(cards, streets, s as u8)))
}

/// The keys that two vectors of rank lists hold.
pub open spec fn key_lists(lists: Seq<Vec<u8>>, holes: Seq<Vec<u8>>) -> Seq<(Seq<u8>, Seq<u8>)> {
    Seq::new(lists.len(), |s: int| (lists[s]@, holes[s]@))
}

/// Whether suit `a` is labelled before suit `b`. Suits with the same key are
/// the same but for their names, and keep the order they had.
pub open spec fn suit_precedes(keys: Seq<(Seq<u8>, Seq<u8>)>, a: int, b: int) -> bool {
    key_before(keys[a], keys[b]) || (keys[a] == keys[b] && a < b)
}

/// One if the condition holds, zero if not.
pub open spec fn indicator(condition: bool) -> int {
    if condition {
        1
    } else {
        0
    }
}

/// The new label of a suit: the number of suits that are labelled before it.
pub open spec fn suit_label(keys: Seq<(Seq<u8>, Seq<u8>)>, suit: int) -> int {
    indicator(suit_precedes(keys, 0, suit)) + indicator(suit_precedes(keys, 1, suit)) + indicator(
        suit_precedes(keys, 2, suit),
    ) + indicator(suit_precedes(keys, 3, suit))
}

/// The new labels of the four suits.
pub open spec fn suit_labels(keys: Seq<(Seq<u8>, Seq<u8>)>) -> Seq<u8> {
    Seq::new(4, |s: int| suit_label(keys, s) as u8)
}

/// The suit that is given the label `label`.
pub open spec fn suit_of_label(keys: Seq<(Seq<u8>, Seq<u8>)>, label: int) -> int {
    if suit_label(keys, 0) == label {
        0
    } else if suit_label(keys, 1) == label {
        1
    } else if suit_label(keys, 2) == label {
        2
    } else {
        3
    }
}

/// Whether `labels` gives the four suits four different labels.
pub open spec fn is_suit_permutation(labels: Seq<u8>) -> bool {
    &&& labels.len() == 4
    &&& forall|s: int| 0 <= s < 4 ==> #[trigger] labels[s] < 4
    &&& forall|s: int, t: int| 0 <= s < t < 4 ==> #[trigger] labels[s] != #[trigger] labels[t]
}

/// No list comes before itself.
pub proof fn lemma_lex_irreflexive(a: Seq<u8>)
    ensures
        !lex_lt(a, a),
    decreases a.len(),
{
    if a.len() > 0 {
        lemma_lex_irreflexive(a.drop_first());
    }
}

/// What comes before a list that comes before a third comes before the third.
pub proof fn lemma_lex_transitive(a: Seq<u8>, b: Seq<u8>, c: Seq<u8>)
    requires
        lex_lt(a, b),
        lex_lt(b, c),
    ensures
        lex_lt(a, c),
    decreases a.len(),
{
    if a.len() > 0 && b.len() > 0 && c.len() > 0 {
        if a[0] == b[0] && b[0] == c[0] {
            lemma_lex_transitive(a.drop_first(), b.drop_first(), c.drop_first());
        }
    }
}

/// Of two different lists one comes before the other.
pub proof fn lemma_lex_connected(a: Seq<u8>, b: Seq<u8>)
    requires
        a != b,
    ensures
        lex_lt(a, b) || lex_lt(b, a),
    decreases a.len(),
{
    if a.len() > 0 && b.len() > 0 {
        if a[0] == b[0] {
            if a.drop_first() == b.drop_first() {
                assert(a =~= seq![a[0]] + a.drop_first());
                assert(b =~= seq![b[0]] + b.drop_first());
            }
            lemma_lex_connected(a.drop_first(), b.drop_first());
        }
    } else if a.len() == 0 && b.len() == 0 {
        assert(a =~= b);
    }
}

/// [`ranks_before`] is a strict total order of rank lists.
pub proof fn lemma_ranks_before_order(a: Seq<u8>, b: Seq<u8>, c: Seq<u8>)
    ensures
        !ranks_before(a, a),
        ranks_before(a, b) ==> !ranks_before(b, a),
        ranks_before(a, b) && ranks_before(b, c) ==> ranks_before(a, c),
        a != b ==> ranks_before(a, b) || ranks_before(b, a),
{
    lemma_lex_irreflexive(a);
    if ranks_before(a, b) && ranks_before(b, a) {
        lemma_lex_transitive(a, b, a);
    }
    if ranks_before(a, b) && ranks_before(b, c) {
        if a.len() == b.len() && b.len() == c.len() {
            lemma_lex_transitive(a, b, c);
        }
    }
    if a != b {
        lemma_lex_connected(a, b);
    }
}

/// [`key_before`] is a strict total order of keys.
pub proof fn lemma_key_before_order(
    a: (Seq<u8>, Seq<u8>),
    b: (Seq<u8>, Seq<u8>),
    c: (Seq<u8>, Seq<u8>),
)
    ensures
        !key_before(a, a),
        key_before(a, b) ==> !key_before(b, a),
        key_before(a, b) && key_before(b, c) ==> key_before(a, c),
        a != b ==> key_before(a, b) || key_before(b, a),
        key_before(a, b) ==> !ranks_before(b.0, a.0),
{
    lemma_ranks_before_order(a.0, b.0, c.0);
    lemma_ranks_before_order(b.0, c.0, a.0);
    lemma_ranks_before_order(a.1, b.1, c.1);
    lemma_ranks_before_order(b.1, c.1, a.1);
}

/// [`suit_precedes`] is a strict total order of the four suits.
pub proof fn lemma_suit_precedes_order(keys: Seq<(Seq<u8>, Seq<u8>)>)
    ensures
        forall|a: int| !#[trigger] suit_precedes(keys, a, a),
        forall|a: int, b: int| #[trigger]
            suit_precedes(keys, a, b) ==> !suit_precedes(keys, b, a),
        forall|a: int, b: int| a != b ==> #[trigger] suit_precedes(keys, a, b) || suit_precedes(keys, b, a),
        forall|a: int, b: int, c: int|
            #[trigger] suit_precedes(keys, a, b) && #[trigger] suit_precedes(keys, b, c)
                ==> suit_precedes(keys, a, c),
{
    assert forall|a: int| !#[trigger] suit_precedes(keys, a, a) by {
        lemma_key_before_order(keys[a], keys[a], keys[a]);
    }
    assert forall|a: int, b: int| #[trigger] suit_precedes(keys, a, b) implies !suit_precedes(
        keys,
        b,
        a,
    ) by {
        lemma_key_before_order(keys[a], keys[b], keys[a]);
    }
    assert forall|a: int, b: int| a != b implies #[trigger] suit_precedes(keys, a, b)
        || suit_precedes(keys, b, a) by {
        lemma_key_before_order(keys[a], keys[b], keys[a]);
    }
    assert forall|a: int, b: int, c: int| #[trigger]
        suit_precedes(keys, a, b) && #[trigger] suit_precedes(keys, b, c) implies suit_precedes(
        keys,
        a,
        c,
    ) by {
        lemma_key_before_order(keys[a], keys[b], keys[c]);
        lemma_key_before_order(keys[b], keys[c], keys[a]);
    }
}

/// The labels are the numbers 0 to 3, each given once, and follow the order
/// of the suits.
pub proof fn lemma_suit_labels(keys: Seq<(Seq<u8>, Seq<u8>)>)
    ensures
        is_suit_permutation(suit_labels(keys)),
        forall|s: int| 0 <= s < 4 ==> 0 <= #[trigger] suit_label(keys, s) < 4,
        forall|a: int, b: int|
            0 <= a < 4 && 0 <= b < 4 ==> (#[trigger] suit_precedes(keys, a, b) <==> suit_label(
                keys,
                a,
            ) < suit_label(keys, b)),
        forall|j: int|
            0 <= j < 4 ==> 0 <= #[trigger] suit_of_label(keys, j) < 4 && suit_label(
                keys,
                suit_of_label(keys, j),
            ) == j,
{
    lemma_suit_precedes_order(keys);
    lemma_label_of(keys, 0);
    lemma_label_of(keys, 1);
    lemma_label_of(keys, 2);
    lemma_label_of(keys, 3);
    let l0 = suit_label(keys, 0);
    let l1 = suit_label(keys, 1);
    let l2 = suit_label(keys, 2);
    let l3 = suit_label(keys, 3);
    assert forall|a: int, b: int| 0 <= a < 4 && 0 <= b < 4 implies (#[trigger] suit_precedes(
        keys,
        a,
        b,
    ) <==> suit_label(keys, a) < suit_label(keys, b)) by {
        if suit_precedes(keys, a, b) {
            lemma_label_monotone(keys, a, b);
        } else if a != b {
            assert(suit_precedes(keys, b, a));
            lemma_label_monotone(keys, b, a);
        }
    }
    assert(suit_precedes(keys, 0, 1) || suit_precedes(keys, 1, 0));
    assert(suit_precedes(keys, 0, 2) || suit_precedes(keys, 2, 0));
    assert(suit_precedes(keys, 0, 3) || suit_precedes(keys, 3, 0));
    assert(suit_precedes(keys, 1, 2) || suit_precedes(keys, 2, 1));
    assert(suit_precedes(keys, 1, 3) || suit_precedes(keys, 3, 1));
    assert(suit_precedes(keys, 2, 3) || suit_precedes(keys, 3, 2));
    assert(l0 != l1 && l0 != l2 && l0 != l3 && l1 != l2 && l1 != l3 && l2 != l3);
    assert forall|j: int| 0 <= j < 4 implies 0 <= #[trigger] suit_of_label(keys, j) < 4
        && suit_label(keys, suit_of_label(keys, j)) == j by {
        assert(l0 == j || l1 == j || l2 == j || l3 == j);
    }
    let labels = suit_labels(keys);
    assert forall|s: int, t: int| 0 <= s < t < 4 implies #[trigger] labels[s] != #[trigger] labels[t] by {
        assert(labels[s] == suit_label(keys, s));
        assert(labels[t] == suit_label(keys, t));
    }
}

proof fn lemma_label_of(keys: Seq<(Seq<u8>, Seq<u8>)>, s: int)
    requires
        0 <= s < 4,
    ensures
        0 <= suit_label(keys, s) < 4,
{
    lemma_suit_precedes_order(keys);
    assert(!suit_precedes(keys, s, s));
}

proof fn lemma_label_monotone(keys: Seq<(Seq<u8>, Seq<u8>)>, a: int, b: int)
    requires
        0 <= a < 4,
        0 <= b < 4,
        suit_precedes(keys, a, b),
    ensures
        suit_label(keys, a) < suit_label(keys, b),
{
    lemma_suit_precedes_order(keys);
    assert(!suit_precedes(keys, a, a));
    assert(!suit_precedes(keys, b, a));
    assert(suit_precedes(keys, 0, a) ==> suit_precedes(keys, 0, b));
    assert(suit_precedes(keys, 1, a) ==> suit_precedes(keys, 1, b));
    assert(suit_precedes(keys, 2, a) ==> suit_precedes(keys, 2, b));
    assert(suit_precedes(keys, 3, a) ==> suit_precedes(keys, 3, b));
}

} // verus!
