//! Dealing out every canonical hand of a given length.
//!
//! Cards are added one at a time, in the order of the deck, and a hand that
//! cannot be the start of a canonical hand is dropped at once, so that the
//! work grows with the number of classes and not with the number of deals.

use crate::canonical::{canonical_cards, canonical_hand, is_canonical, is_canonical_hand};
use crate::card::{all_valid, cards2str, deck, deck_cards, hand_text, lemma_deck_cards, Card};
use crate::combos::{
    all_combinations, combinations, index_lists, is_combination, lemma_select,
    lists_combinations, pick, select,
};
use crate::compact::{lemma_pack_bounds, lemma_slot_range_of_eight, pack};
use crate::distribution::{join, lemma_concat_distinct, lemma_concat_valid};
use crate::equity::{cards_left, cards_without, lemma_cards_without};
use crate::dataset::hand_key;
use crate::order::{card_le, is_sorted};
use crate::ranks::{by_suits, ranks_before, suit_ranks};
use std::collections::HashSet;
use vstd::prelude::*;
use vstd::string::*;

verus! {

/// The number of cards in the deck.
pub const DECK_CARDS: usize = 52;

/// Whether a hand that was dealt so far is dealt on: it is canonical or, where
/// streets are told apart, not yet complete.
pub open spec fn is_kept(hand: Seq<Card>, n: nat, streets: bool) -> bool {
    is_canonical_hand(hand, streets) || (streets && hand.len() < n)
}

/// The hands of `n` cards that are dealt from `hand` on, in the order in which
/// they are dealt.
pub open spec fn deals_from(hand: Seq<Card>, n: nat, streets: bool) -> Seq<Seq<Card>>
    decreases n - hand.len(), 53nat,
{
    if hand.len() >= n {
        seq![hand]
    } else {
        deals_with(hand, n, streets, 52)
    }
}

/// The hands of `n` cards that are dealt from `hand` on with one of the first
/// `upto` cards of the deck as the next card.
pub open spec fn deals_with(hand: Seq<Card>, n: nat, streets: bool, upto: nat) -> Seq<Seq<Card>>
    decreases n - hand.len(), upto,
{
    if upto == 0 || hand.len() >= n {
        Seq::empty()
    } else {
        let next = hand.push(deck_cards()[upto - 1]);
        deals_with(hand, n, streets, (upto - 1) as nat) + if is_kept(next, n, streets) {
            deals_from(next, n, streets)
        } else {
            Seq::empty()
        }
    }
}

/// The hands that a vector of vectors holds.
pub open spec fn hand_lists(hands: Seq<Vec<Card>>) -> Seq<Seq<Card>> {
    Seq::new(hands.len(), |i: int| hands[i]@)
}

/// Whether every start of the hand beyond its first `from` cards is kept.
pub open spec fn kept_beyond(hand: Seq<Card>, from: nat, n: nat, streets: bool) -> bool {
    forall|k: int| from < k <= hand.len() ==> is_kept(#[trigger] hand.take(k), n, streets)
}

/// A hand is dealt from `start` on exactly if it has `n` cards of the deck,
/// begins with `start`, and each of its longer starts is kept.
pub proof fn lemma_deals_from(start: Seq<Card>, n: nat, streets: bool, hand: Seq<Card>)
    requires
        start.len() <= n,
    ensures
        deals_from(start, n, streets).contains(hand) <==> {
            &&& hand.len() == n
            &&& hand.take(start.len() as int) == start
            &&& kept_beyond(hand, start.len(), n, streets)
            &&& forall|i: int| start.len() <= i < n ==> deck_cards().contains(#[trigger] hand[i])
        },
    decreases n - start.len(), 53nat,
{
    if start.len() >= n {
        let list = deals_from(start, n, streets);
        assert(list[0] == start);
        if hand.len() == n && hand.take(start.len() as int) == start {
            assert(hand.take(n as int) =~= hand);
            assert(list.contains(hand));
        }
        if list.contains(hand) {
            assert(hand == start);
            assert(hand.take(n as int) =~= hand);
        }
    } else {
        lemma_deals_with(start, n, streets, 52, hand);
        lemma_deck_cards();
        if hand.len() == n {
            let next = hand[start.len() as int];
            if deck_cards().contains(next) {
                let i = choose|i: int| 0 <= i < 52 && deck_cards()[i] == next;
                assert(deck_cards()[i] == next);
            }
        }
    }
}

/// A hand is dealt from `start` on with one of the first `upto` cards of the
/// deck next exactly if it is dealt from `start` on and that card is its next.
pub proof fn lemma_deals_with(start: Seq<Card>, n: nat, streets: bool, upto: nat, hand: Seq<Card>)
    requires
        start.len() < n,
        upto <= 52,
    ensures
        deals_with(start, n, streets, upto).contains(hand) <==> {
            &&& hand.len() == n
            &&& hand.take(start.len() as int) == start
            &&& kept_beyond(hand, start.len(), n, streets)
            &&& forall|i: int| start.len() < i < n ==> deck_cards().contains(#[trigger] hand[i])
            &&& exists|j: int| 0 <= j < upto && #[trigger] deck_cards()[j] == hand[start.len() as int]
        },
    decreases n - start.len(), upto,
{
    let list = deals_with(start, n, streets, upto);
    let at = start.len() as int;
    if upto > 0 {
        let card = deck_cards()[upto - 1];
        let next = start.push(card);
        let before = deals_with(start, n, streets, (upto - 1) as nat);
        let under = if is_kept(next, n, streets) {
            deals_from(next, n, streets)
        } else {
            Seq::empty()
        };
        lemma_deals_with(start, n, streets, (upto - 1) as nat, hand);
        if is_kept(next, n, streets) {
            lemma_deals_from(next, n, streets, hand);
        }
        assert(list == before + under);
        assert(list.contains(hand) <==> before.contains(hand) || under.contains(hand)) by {
            if before.contains(hand) {
                let i = choose|i: int| 0 <= i < before.len() && before[i] == hand;
                assert(list[i] == hand);
            }
            if under.contains(hand) {
                let i = choose|i: int| 0 <= i < under.len() && under[i] == hand;
                assert(list[before.len() + i] == hand);
            }
            if list.contains(hand) {
                let i = choose|i: int| 0 <= i < list.len() && list[i] == hand;
                if i < before.len() {
                    assert(before[i] == hand);
                } else {
                    assert(under[i - before.len()] == hand);
                }
            }
        }
        if under.contains(hand) {
            assert(hand.take(at + 1) == next);
            assert(hand.take(at) =~= hand.take(at + 1).take(at));
            assert(next.take(at) =~= start);
            assert(hand[at] == hand.take(at + 1)[at]);
            assert(deck_cards()[upto - 1] == hand[at]);
            assert forall|k: int| at < k <= hand.len() implies is_kept(
                #[trigger] hand.take(k),
                n,
                streets,
            ) by {
                if k == at + 1 {
                } else {
                    assert(kept_beyond(hand, (at + 1) as nat, n, streets));
                }
            }
        }
        if hand.len() == n && hand.take(at) == start && kept_beyond(hand, start.len(), n, streets)
            && (forall|i: int| start.len() < i < n ==> deck_cards().contains(#[trigger] hand[i]))
            && hand[at] == card {
            assert(hand.take(at + 1) =~= next);
            assert(is_kept(hand.take(at + 1), n, streets));
            assert(under.contains(hand));
        }
    } else {
        assert(list =~= Seq::<Seq<Card>>::empty());
    }
}

/// Deals on from the cards dealt so far and adds each complete hand to
/// `permutations`.
fn deal_cards(permutations: &mut Vec<Vec<Card>>, n: u32, cards: &[Card], streets: bool)
    requires
        cards@.len() <= n,
    ensures
        hand_lists(final(permutations)@) == hand_lists(old(permutations)@) + deals_from(
            cards@,
            n as nat,
            streets,
        ),
    decreases n - cards@.len(),
{
    let mut hand: Vec<Card> = Vec::new();
    let mut k: usize = 0;
    while k < cards.len()
        invariant
            k <= cards@.len(),
            hand@ == cards@.take(k as int),
        decreases cards@.len() - k,
    {
        hand.push(cards[k]);
        proof {
            assert(hand@ =~= cards@.take(k + 1));
        }
        k = k + 1;
    }
    proof {
        assert(cards@.take(k as int) =~= cards@);
    }
    if hand.len() == n as usize {
        permutations.push(hand);
        proof {
            assert(hand_lists(permutations@) =~= hand_lists(old(permutations)@) + deals_from(
                cards@,
                n as nat,
                streets,
            ));
        }
        return ;
    }
    let all = deck();
    let mut i: usize = 0;
    proof {
        assert(hand_lists(permutations@) =~= hand_lists(old(permutations)@) + deals_with(
            cards@,
            n as nat,
            streets,
            0,
        ));
    }
    while i < DECK_CARDS
        invariant
            i <= 52,
            all@ == deck_cards(),
            hand@ == cards@,
            cards@.len() < n,
            hand_lists(permutations@) == hand_lists(old(permutations)@) + deals_with(
                cards@,
                n as nat,
                streets,
                i as nat,
            ),
        decreases 52 - i,
    {
        let ghost dealt = hand_lists(permutations@);
        hand.push(all[i]);
        if is_canonical(hand.as_slice(), streets) || (streets && hand.len() < n as usize) {
            deal_cards(permutations, n, hand.as_slice(), streets);
        }
        proof {
            assert(hand_lists(permutations@) =~= hand_lists(old(permutations)@) + deals_with(
                cards@,
                n as nat,
                streets,
                (i + 1) as nat,
            ));
        }
        hand.pop();
        proof {
            assert(hand@ =~= cards@);
        }
        i = i + 1;
    }
}

/// All canonical hands of `n` cards of the deck, each once, in the order in
/// which they are dealt.
pub fn deal_canonical(n: u32, streets: bool) -> (hands: Vec<Vec<Card>>)
    ensures
        hand_lists(hands@) == deals_from(Seq::<Card>::empty(), n as nat, streets),
        forall|i: int|
            0 <= i < hands@.len() ==> (#[trigger] hands@[i])@.len() == n && all_valid(hands@[i]@)
                && is_canonical_hand(hands@[i]@, streets),
{
    let mut permutations: Vec<Vec<Card>> = Vec::new();
    let start: Vec<Card> = Vec::new();
    deal_cards(&mut permutations, n, start.as_slice(), streets);
    proof {
        let dealt = deals_from(Seq::<Card>::empty(), n as nat, streets);
        assert(hand_lists(permutations@) =~= dealt);
        assert forall|i: int| 0 <= i < permutations@.len() implies (#[trigger] permutations@[i])@.len()
            == n && all_valid(permutations@[i]@) && is_canonical_hand(
            permutations@[i]@,
            streets,
        ) by {
            let hand = permutations@[i]@;
            assert(dealt[i] == hand);
            assert(dealt.contains(hand));
            lemma_deals_are_the_canonical_hands(n as nat, streets, hand);
            lemma_deck_cards();
            assert forall|k: int| 0 <= k < hand.len() implies (#[trigger] hand[k]).is_valid() by {
                assert(deck_cards().contains(hand[k]));
                let at = choose|at: int| 0 <= at < 52 && deck_cards()[at] == hand[k];
                assert(deck_cards()[at].is_valid());
            }
        }
    }
    permutations
}

/// The text of a list of hands: one hand a line.
pub open spec fn lines_text(hands: Seq<Seq<Card>>) -> Seq<char>
    decreases hands.len(),
{
    if hands.len() == 0 {
        Seq::empty()
    } else {
        lines_text(hands.drop_last()) + hand_text(hands.last()) + seq!['\n']
    }
}

/// The canonical hands of `n` cards as text, one hand a line.
pub fn canonical_lines(n: u32, streets: bool) -> (text: String)
    ensures
        text@ == lines_text(deals_from(Seq::<Card>::empty(), n as nat, streets)),
{
    let hands = deal_canonical(n, streets);
    let ghost dealt = deals_from(Seq::<Card>::empty(), n as nat, streets);
    let mut text = String::new();
    let mut i: usize = 0;
    proof {
        assert(dealt.take(0) =~= Seq::<Seq<Card>>::empty());
    }
    while i < hands.len()
        invariant
            i <= hands@.len(),
            dealt == deals_from(Seq::<Card>::empty(), n as nat, streets),
            dealt == hand_lists(hands@),
            forall|j: int| 0 <= j < hands@.len() ==> all_valid((#[trigger] hands@[j])@),
            text@ == lines_text(dealt.take(i as int)),
        decreases hands@.len() - i,
    {
        proof {
            let hand = hands@[i as int]@;
            assert(dealt[i as int] == hand);
            assert(dealt.take(i + 1).drop_last() =~= dealt.take(i as int));
            assert(dealt.take(i + 1).last() == hand);
            reveal_strlit("\n");
        }
        let line = cards2str(hands[i].as_slice());
        text.append(line.as_str());
        text.append("\n");
        proof {
            assert("\n"@ =~= seq!['\n']);
        }
        i = i + 1;
    }
    proof {
        assert(dealt.take(i as int) =~= dealt);
    }
    text
}

/// The hand that is dealt when the hole cards are picked from `cards` and the
/// board from what is left.
pub open spec fn dealt_hand(cards: Seq<Card>, hole: Seq<usize>, board: Seq<usize>) -> Seq<Card> {
    select(cards, hole) + select(cards_without(cards, select(cards, hole)), board)
}

/// The key of the class of a dealt hand, the hole cards told apart from the
/// board.
pub open spec fn dealt_key(cards: Seq<Card>, hole: Seq<usize>, board: Seq<usize>) -> u64 {
    hand_key(canonical_cards(dealt_hand(cards, hole, board), true))
}

/// Whether `key` is the key of a hand with these hole cards and one of the
/// first `upto` boards.
pub open spec fn key_among_boards(
    cards: Seq<Card>,
    hole: Seq<usize>,
    boards: Seq<Seq<usize>>,
    upto: int,
    key: u64,
) -> bool {
    exists|j: int| 0 <= j < upto && key == dealt_key(cards, hole, #[trigger] boards[j])
}

/// Every board of `n` cards that can follow the hole cards.
pub open spec fn boards_after(cards: Seq<Card>, hole: Seq<usize>, n: nat) -> Seq<Seq<usize>> {
    all_combinations(cards_without(cards, select(cards, hole)).len(), n)
}

/// Whether `key` is the key of a hand with one of the first `upto` pairs of
/// hole cards and any board.
pub open spec fn key_among_holes(
    cards: Seq<Card>,
    n: nat,
    holes: Seq<Seq<usize>>,
    upto: int,
    key: u64,
) -> bool {
    exists|i: int|
        0 <= i < upto && key_among_boards(
            cards,
            #[trigger] holes[i],
            boards_after(cards, holes[i], n),
            boards_after(cards, holes[i], n).len() as int,
            key,
        )
}

/// The classes of all hands that can be dealt from `cards` with two hole cards
/// and a board of `board` cards, found by dealing every hand.
pub fn canonical_deals(cards: &[Card], board: usize) -> (keys: HashSet<u64>)
    requires
        all_valid(cards@),
        cards@.no_duplicates(),
        cards@.len() <= 52,
        board <= 5,
    ensures
        forall|key: u64|
            keys@.contains(key) <==> key_among_holes(
                cards@,
                board as nat,
                all_combinations(cards@.len(), 2),
                all_combinations(cards@.len(), 2).len() as int,
                key,
            ),
{
    broadcast use vstd::std_specs::hash::group_hash_axioms;

    let mut keys: HashSet<u64> = HashSet::new();
    let hole_picks = combinations(cards.len(), 2);
    let ghost holes = index_lists(hole_picks@);
    let ghost n = board as nat;
    let mut a: usize = 0;
    while a < hole_picks.len()
        invariant
            a <= hole_picks@.len(),
            all_valid(cards@),
            cards@.no_duplicates(),
            cards@.len() <= 52,
            board <= 5,
            n == board,
            holes == index_lists(hole_picks@),
            holes == all_combinations(cards@.len(), 2),
            lists_combinations(holes, cards@.len(), 2),
            forall|key: u64|
                #![trigger keys@.contains(key)]
                #![trigger key_among_holes(cards@, n, holes, a as int, key)]
                keys@.contains(key) <==> key_among_holes(cards@, n, holes, a as int, key),
        decreases hole_picks@.len() - a,
    {
        let ghost hole_at = holes[a as int];
        proof {
            assert(is_combination(hole_at, cards@.len(), 2));
            assert(hole_at == hole_picks@[a as int]@);
            lemma_select(cards@, hole_at, 2);
        }
        let hole = pick(cards, &hole_picks[a]);
        let rest = cards_left(cards, hole.as_slice());
        proof {
            lemma_cards_without(cards@, hole@);
        }
        let board_picks = combinations(rest.len(), board);
        let ghost boards = index_lists(board_picks@);
        let ghost before = keys@;
        let mut b: usize = 0;
        while b < board_picks.len()
            invariant
                b <= board_picks@.len(),
                all_valid(cards@),
                board <= 5,
                n == board,
                hole@ == select(cards@, hole_at),
                hole@.len() == 2,
                all_valid(hole@),
                hole@.no_duplicates(),
                rest@ == cards_without(cards@, hole@),
                all_valid(rest@),
                rest@.no_duplicates(),
                forall|c: Card| rest@.contains(c) ==> !hole@.contains(c),
                boards == index_lists(board_picks@),
                boards == boards_after(cards@, hole_at, n),
                lists_combinations(boards, rest@.len(), n),
                forall|key: u64|
                    #![trigger keys@.contains(key)]
                    #![trigger before.contains(key)]
                    #![trigger key_among_boards(cards@, hole_at, boards, b as int, key)]
                    keys@.contains(key) <==> before.contains(key) || key_among_boards(
                        cards@,
                        hole_at,
                        boards,
                        b as int,
                        key,
                    ),
            decreases board_picks@.len() - b,
        {
            let ghost board_at = boards[b as int];
            proof {
                assert(is_combination(board_at, rest@.len(), n));
                assert(board_at == board_picks@[b as int]@);
                lemma_select(rest@, board_at, n);
            }
            let runout = pick(rest.as_slice(), &board_picks[b]);
            let hand = join(hole.as_slice(), runout.as_slice());
            proof {
                assert forall|c: Card| hole@.contains(c) implies !runout@.contains(c) by {
                    if runout@.contains(c) {
                        let i = choose|i: int| 0 <= i < runout@.len() && runout@[i] == c;
                        assert(rest@.contains(runout@[i]));
                    }
                }
                lemma_concat_distinct(hole@, runout@);
                lemma_concat_valid(hole@, runout@);
                assert(hand@ == dealt_hand(cards@, hole_at, board_at));
            }
            let ghost had = keys@;
            match canonical_hand(hand.as_slice(), true) {
                Ok(canonical) => {
                    proof {
                        lemma_pack_bounds(canonical@);
                        lemma_slot_range_of_eight();
                    }
                    match pack(canonical.as_slice()) {
                        Ok(key) => {
                            keys.insert(key);
                            proof {
                                assert(key == dealt_key(cards@, hole_at, boards[b as int]));
                            }
                        },
                        Err(_) => {},
                    }
                },
                Err(_) => {},
            }
            proof {
                let added = dealt_key(cards@, hole_at, boards[b as int]);
                assert(keys@ == had.insert(added));
                assert forall|key: u64| keys@.contains(key) <==> before.contains(key)
                    || key_among_boards(cards@, hole_at, boards, b + 1, key) by {
                    if key_among_boards(cards@, hole_at, boards, b + 1, key) {
                        let j = choose|j: int|
                            0 <= j < b + 1 && key == dealt_key(cards@, hole_at, #[trigger] boards[j]);
                        if j < b {
                            assert(key_among_boards(cards@, hole_at, boards, b as int, key));
                            assert(had.contains(key));
                        } else {
                            assert(key == added);
                        }
                        assert(keys@.contains(key));
                    }
                    if keys@.contains(key) && !before.contains(key) {
                        if key == added {
                            assert(0 <= b < b + 1 && key == dealt_key(
                                cards@,
                                hole_at,
                                boards[b as int],
                            ));
                        } else {
                            assert(had.contains(key));
                            assert(key_among_boards(cards@, hole_at, boards, b as int, key));
                            let j = choose|j: int|
                                0 <= j < b && key == dealt_key(cards@, hole_at, #[trigger] boards[j]);
                            assert(0 <= j < b + 1);
                        }
                        assert(key_among_boards(cards@, hole_at, boards, b + 1, key));
                    }
                    if before.contains(key) {
                        assert(had.contains(key));
                    }
                }
            }
            b = b + 1;
        }
        proof {
            assert(boards.len() == board_picks@.len());
            assert forall|key: u64| keys@.contains(key) <==> key_among_holes(
                cards@,
                n,
                holes,
                a + 1,
                key,
            ) by {
                let here = key_among_boards(cards@, hole_at, boards, boards.len() as int, key);
                assert(keys@.contains(key) <==> before.contains(key) || here);
                assert(before.contains(key) <==> key_among_holes(cards@, n, holes, a as int, key));
                if key_among_holes(cards@, n, holes, a + 1, key) {
                    let i = choose|i: int|
                        0 <= i < a + 1 && key_among_boards(
                            cards@,
                            #[trigger] holes[i],
                            boards_after(cards@, holes[i], n),
                            boards_after(cards@, holes[i], n).len() as int,
                            key,
                        );
                    if i < a {
                        assert(key_among_holes(cards@, n, holes, a as int, key));
                    } else {
                        assert(holes[i] == hole_at);
                        assert(here);
                    }
                }
                if key_among_holes(cards@, n, holes, a as int, key) {
                    let i = choose|i: int|
                        0 <= i < a && key_among_boards(
                            cards@,
                            #[trigger] holes[i],
                            boards_after(cards@, holes[i], n),
                            boards_after(cards@, holes[i], n).len() as int,
                            key,
                        );
                    assert(0 <= i < a + 1);
                    assert(key_among_holes(cards@, n, holes, a + 1, key));
                }
                if here {
                    assert(0 <= a < a + 1 && key_among_boards(
                        cards@,
                        holes[a as int],
                        boards_after(cards@, holes[a as int], n),
                        boards_after(cards@, holes[a as int], n).len() as int,
                        key,
                    ));
                    assert(key_among_holes(cards@, n, holes, a + 1, key));
                }
            }
        }
        a = a + 1;
    }
    keys
}

/// The classes of all river hands, found by dealing every hand of two hole
/// cards and five board cards from the deck.
pub fn deal_river_canonical() -> (keys: HashSet<u64>)
    ensures
        forall|key: u64|
            keys@.contains(key) <==> key_among_holes(
                deck_cards(),
                5,
                all_combinations(52, 2),
                all_combinations(52, 2).len() as int,
                key,
            ),
{
    let all = deck();
    proof {
        lemma_deck_cards();
    }
    canonical_deals(all.as_slice(), 5)
}

/// A suit of which the hand holds no card has no ranks.
pub proof fn lemma_suit_ranks_of_absent_suit(cards: Seq<Card>, suit: u8)
    requires
        forall|i: int| 0 <= i < cards.len() ==> (#[trigger] cards[i]).suit != suit,
    ensures
        suit_ranks(cards, suit) == Seq::<u8>::empty(),
    decreases cards.len(),
{
    if cards.len() > 0 {
        assert(cards[cards.len() - 1].suit != suit);
        assert forall|i: int| 0 <= i < cards.drop_last().len() implies (#[trigger] cards.drop_last()[i]).suit
            != suit by {
            assert(cards.drop_last()[i] == cards[i]);
        }
        lemma_suit_ranks_of_absent_suit(cards.drop_last(), suit);
    }
}

/// Where streets are not told apart, a canonical hand without its last card
/// is canonical.
pub proof fn lemma_canonical_without_last(hand: Seq<Card>)
    requires
        all_valid(hand),
        hand.len() > 0,
        is_canonical_hand(hand, false),
    ensures
        is_canonical_hand(hand.drop_last(), false),
{
    let rest = hand.drop_last();
    let last = hand.last();
    let lists = by_suits(hand);
    let short = by_suits(rest);
    assert(is_sorted(rest)) by {
        assert forall|i: int, j: int| 0 <= i < j < rest.len() implies card_le(
            #[trigger] rest[i],
            #[trigger] rest[j],
        ) by {
            assert(card_le(hand[i], hand[j]));
        }
    }
    assert(rest.no_duplicates()) by {
        assert forall|i: int, j: int|
            0 <= i < rest.len() && 0 <= j < rest.len() && i != j implies rest[i] != rest[j] by {
            assert(hand[i] != hand[j]);
        }
    }
    assert(last.is_valid());
    assert forall|s: int| 0 <= s < 4 && s != last.suit implies #[trigger] short[s] == lists[s] by {}
    assert(short[last.suit as int] == lists[last.suit as int].drop_last()) by {
        assert(lists[last.suit as int] == short[last.suit as int].push(last.rank));
        assert(short[last.suit as int].push(last.rank).drop_last() =~= short[last.suit as int]);
    }
    assert forall|s: int| last.suit < s < 4 implies #[trigger] lists[s] == Seq::<u8>::empty() by {
        assert forall|i: int| 0 <= i < hand.len() implies (#[trigger] hand[i]).suit != s as u8 by {
            if i < hand.len() - 1 {
                assert(card_le(hand[i], hand[hand.len() - 1]));
            }
        }
        lemma_suit_ranks_of_absent_suit(hand, s as u8);
    }
    assert forall|s: int| 1 <= s < 4 implies !ranks_before(#[trigger] short[s], short[s - 1]) by {
        assert(!ranks_before(lists[s], lists[s - 1]));
        if s == last.suit {
            assert(short[s].len() < lists[s].len());
        } else if s - 1 == last.suit {
            assert(lists[s] == Seq::<u8>::empty());
        }
    }
}

/// Where streets are not told apart, every start of a canonical hand is
/// canonical.
pub proof fn lemma_canonical_starts(hand: Seq<Card>, k: int)
    requires
        all_valid(hand),
        is_canonical_hand(hand, false),
        0 <= k <= hand.len(),
    ensures
        is_canonical_hand(hand.take(k), false),
    decreases hand.len() - k,
{
    if k == hand.len() {
        assert(hand.take(k) =~= hand);
    } else {
        lemma_canonical_without_last(hand);
        let rest = hand.drop_last();
        assert forall|i: int| 0 <= i < rest.len() implies (#[trigger] rest[i]).is_valid() by {
            assert(rest[i] == hand[i]);
        }
        lemma_canonical_starts(rest, k);
        assert(rest.take(k) =~= hand.take(k));
    }
}

/// Enumeration completeness: the hands that are dealt are the canonical hands
/// of `n` cards of the deck, all of them.
pub proof fn lemma_deals_are_the_canonical_hands(n: nat, streets: bool, hand: Seq<Card>)
    ensures
        deals_from(Seq::<Card>::empty(), n, streets).contains(hand) <==> {
            &&& hand.len() == n
            &&& forall|i: int| 0 <= i < n ==> deck_cards().contains(#[trigger] hand[i])
            &&& is_canonical_hand(hand, streets)
        },
{
    let start = Seq::<Card>::empty();
    lemma_deals_from(start, n, streets, hand);
    assert(hand.take(0) =~= start);
    if hand.len() == n && forall|i: int| 0 <= i < n ==> deck_cards().contains(#[trigger] hand[i]) {
        lemma_deck_cards();
        assert(all_valid(hand)) by {
            assert forall|i: int| 0 <= i < hand.len() implies (#[trigger] hand[i]).is_valid() by {
                assert(deck_cards().contains(hand[i]));
                let at = choose|at: int| 0 <= at < 52 && deck_cards()[at] == hand[i];
                assert(deck_cards()[at].is_valid());
            }
        }
        assert(hand.take(n as int) =~= hand);
        if is_canonical_hand(hand, streets) {
            assert forall|k: int| 0 < k <= hand.len() implies is_kept(
                #[trigger] hand.take(k),
                n,
                streets,
            ) by {
                if !streets {
                    lemma_canonical_starts(hand, k);
                } else if k == n {
                }
            }
        }
        if kept_beyond(hand, 0, n, streets) {
            if n > 0 {
                assert(is_kept(hand.take(n as int), n, streets));
            } else {
                assert(hand =~= Seq::<Card>::empty());
                assert(by_suits(hand) =~= by_suits(Seq::<Card>::empty()));
                assert(is_canonical_hand(hand, streets));
            }
        }
    }
}

} // verus!
