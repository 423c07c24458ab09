//! Equity at the river: how often a hand wins or ties against every pair of
//! hole cards that an opponent may hold.

use crate::canonical::{canonical_cards, canonical_hand};
use crate::card::{all_valid, deck, deck_cards, lemma_deck_cards, Card};
use crate::combos::{
    all_combinations, combinations, index_lists, is_combination, lemma_select, lists_combinations,
    pick, select,
};
use crate::compact::{lemma_pack_bounds, lemma_slot_range_of_eight, pack};
use crate::error::HandError;
use crate::dataset::hand_key;
use crate::strength::{lemma_hand_strength_unique, strength_of, table_covers, HandTable};
use std::collections::HashMap;
use vstd::prelude::*;

verus! {

/// The outcomes of a hand against a number of opponents. The equity is the
/// share of wins plus half the share of ties.
#[derive(Clone, Copy, Debug, PartialEq, Eq, Structural)]
pub struct Equity {
    pub wins: u64,
    pub ties: u64,
    pub trials: u64,
}

impl Equity {
    /// Whether the outcomes are no more than the trials, so that the equity
    /// lies between zero and one.
    pub open spec fn is_valid(self) -> bool {
        self.wins + self.ties <= self.trials
    }

    /// Twice the number of trials that the equity is worth: two for a win, one
    /// for a tie.
    pub open spec fn points(self) -> int {
        2 * self.wins + self.ties
    }

    /// Whether the equity is exactly one.
    pub open spec fn is_certain(self) -> bool {
        self.points() == 2 * self.trials
    }
}

/// The number of opponents that a hand of strength `mine` beats.
pub open spec fn wins_against(mine: i32, theirs: Seq<i32>) -> int
    decreases theirs.len(),
{
    if theirs.len() == 0 {
        0
    } else {
        wins_against(mine, theirs.drop_last()) + if mine > theirs.last() {
            1int
        } else {
            0int
        }
    }
}

/// The number of opponents that a hand of strength `mine` ties with.
pub open spec fn ties_against(mine: i32, theirs: Seq<i32>) -> int
    decreases theirs.len(),
{
    if theirs.len() == 0 {
        0
    } else {
        ties_against(mine, theirs.drop_last()) + if mine == theirs.last() {
            1int
        } else {
            0int
        }
    }
}

/// Wins and ties are counted among the opponents; against opponents that are
/// all beaten every trial is a win.
pub proof fn lemma_outcome_bounds(mine: i32, theirs: Seq<i32>)
    ensures
        0 <= wins_against(mine, theirs),
        0 <= ties_against(mine, theirs),
        wins_against(mine, theirs) + ties_against(mine, theirs) <= theirs.len(),
        (forall|i: int| 0 <= i < theirs.len() ==> mine > theirs[i]) ==> wins_against(mine, theirs)
            == theirs.len() && ties_against(mine, theirs) == 0,
    decreases theirs.len(),
{
    if theirs.len() > 0 {
        lemma_outcome_bounds(mine, theirs.drop_last());
        if forall|i: int| 0 <= i < theirs.len() ==> mine > theirs[i] {
            assert forall|i: int| 0 <= i < theirs.drop_last().len() implies mine
                > theirs.drop_last()[i] by {
                assert(theirs.drop_last()[i] == theirs[i]);
            }
            assert(mine > theirs[theirs.len() - 1]);
        }
    }
}

/// Counts the wins and ties of a hand of strength `mine` against opponents of
/// the strengths `theirs`.
pub fn tally_outcomes(mine: i32, theirs: &Vec<i32>) -> (equity: Equity)
    ensures
        equity.wins == wins_against(mine, theirs@),
        equity.ties == ties_against(mine, theirs@),
        equity.trials == theirs@.len(),
        equity.is_valid(),
        (forall|i: int| 0 <= i < theirs@.len() ==> mine > theirs@[i]) ==> equity.is_certain(),
{
    let mut wins: u64 = 0;
    let mut ties: u64 = 0;
    let mut i: usize = 0;
    proof {
        assert(theirs@.take(0) =~= Seq::<i32>::empty());
    }
    while i < theirs.len()
        invariant
            i <= theirs@.len(),
            wins == wins_against(mine, theirs@.take(i as int)),
            ties == ties_against(mine, theirs@.take(i as int)),
            wins + ties <= i,
        decreases theirs@.len() - i,
    {
        proof {
            assert(theirs@.take(i + 1).drop_last() =~= theirs@.take(i as int));
            assert(theirs@.take(i + 1).last() == theirs@[i as int]);
        }
        if mine > theirs[i] {
            wins = wins + 1;
        } else if mine == theirs[i] {
            ties = ties + 1;
        }
        i = i + 1;
    }
    proof {
        assert(theirs@.take(i as int) =~= theirs@);
        lemma_outcome_bounds(mine, theirs@);
    }
    Equity { wins, ties, trials: theirs.len() as u64 }
}

/// The cards that are not among the dealt ones, in their order.
pub open spec fn cards_without(cards: Seq<Card>, dealt: Seq<Card>) -> Seq<Card>
    decreases cards.len(),
{
    if cards.len() == 0 {
        Seq::empty()
    } else if dealt.contains(cards.last()) {
        cards_without(cards.drop_last(), dealt)
    } else {
        cards_without(cards.drop_last(), dealt).push(cards.last())
    }
}

/// What is left of some cards holds the cards of them that were not dealt.
pub proof fn lemma_cards_without_members(cards: Seq<Card>, dealt: Seq<Card>, c: Card)
    ensures
        cards_without(cards, dealt).contains(c) <==> cards.contains(c) && !dealt.contains(c),
        cards_without(cards, dealt).len() <= cards.len(),
    decreases cards.len(),
{
    let rest = cards_without(cards, dealt);
    if cards.len() > 0 {
        let before = cards.drop_last();
        let last = cards.last();
        let kept = cards_without(before, dealt);
        lemma_cards_without_members(before, dealt, c);
        if rest.contains(c) {
            let i = choose|i: int| 0 <= i < rest.len() && rest[i] == c;
            if i < kept.len() {
                assert(kept[i] == c);
                assert(kept.contains(c));
                assert(before.contains(c));
                let j = choose|j: int| 0 <= j < before.len() && before[j] == c;
                assert(cards[j] == c);
                assert(cards.contains(c));
            } else {
                assert(c == last);
                assert(cards[cards.len() - 1] == c);
                assert(cards.contains(c));
            }
        }
        if cards.contains(c) && !dealt.contains(c) {
            let j = choose|j: int| 0 <= j < cards.len() && cards[j] == c;
            if j < before.len() {
                assert(before[j] == c);
                assert(before.contains(c));
                assert(kept.contains(c));
                let i = choose|i: int| 0 <= i < kept.len() && kept[i] == c;
                assert(rest[i] == c);
                assert(rest.contains(c));
            } else {
                assert(rest[rest.len() - 1] == c);
                assert(rest.contains(c));
            }
        }
    }
}

/// What is left of some cards holds only cards of them that were not dealt,
/// and holds none twice if they did not.
pub proof fn lemma_cards_without(cards: Seq<Card>, dealt: Seq<Card>)
    ensures
        cards_without(cards, dealt).len() <= cards.len(),
        forall|c: Card|
            #[trigger] cards_without(cards, dealt).contains(c) <==> cards.contains(c)
                && !dealt.contains(c),
        all_valid(cards) ==> all_valid(cards_without(cards, dealt)),
        cards.no_duplicates() ==> cards_without(cards, dealt).no_duplicates(),
    decreases cards.len(),
{
    let rest = cards_without(cards, dealt);
    assert forall|c: Card| #[trigger] rest.contains(c) <==> cards.contains(c) && !dealt.contains(c) by {
        lemma_cards_without_members(cards, dealt, c);
    }
    if cards.len() > 0 {
        let before = cards.drop_last();
        let kept = cards_without(before, dealt);
        lemma_cards_without(before, dealt);
        lemma_cards_without_members(cards, dealt, cards.last());
        if all_valid(cards) {
            assert forall|i: int| 0 <= i < rest.len() implies (#[trigger] rest[i]).is_valid() by {
                assert(rest.contains(rest[i]));
                assert(cards.contains(rest[i]));
                let j = choose|j: int| 0 <= j < cards.len() && cards[j] == rest[i];
                assert(cards[j].is_valid());
            }
        }
        if cards.no_duplicates() {
            assert(before.no_duplicates()) by {
                assert forall|i: int, j: int|
                    0 <= i < before.len() && 0 <= j < before.len() && i != j implies before[i]
                    != before[j] by {
                    assert(cards[i] != cards[j]);
                }
            }
            if !dealt.contains(cards.last()) {
                assert forall|i: int, j: int|
                    0 <= i < rest.len() && 0 <= j < rest.len() && i != j implies rest[i]
                    != rest[j] by {
                    if i < kept.len() && j < kept.len() {
                        assert(kept[i] != kept[j]);
                    } else {
                        let low = if i < j {
                            i
                        } else {
                            j
                        };
                        assert(kept.contains(kept[low]));
                        assert(before.contains(kept[low]));
                        let p = choose|p: int| 0 <= p < before.len() && before[p] == kept[low];
                        assert(cards[p] != cards[cards.len() - 1]);
                    }
                }
            }
        }
    } else {
        lemma_cards_without_members(cards, dealt, Card { rank: 0, suit: 0 });
    }
}

/// Whether some card of the hand equals `card`.
pub fn holds(hand: &[Card], card: &Card) -> (found: bool)
    ensures
        found == hand@.contains(*card),
{
    let mut i: usize = 0;
    while i < hand.len()
        invariant
            i <= hand@.len(),
            forall|j: int| 0 <= j < i ==> hand@[j] != *card,
        decreases hand@.len() - i,
    {
        if hand[i] == *card {
            return true;
        }
        i = i + 1;
    }
    false
}

/// The cards that are not among the dealt ones, in their order.
pub fn cards_left(cards: &[Card], dealt: &[Card]) -> (rest: Vec<Card>)
    ensures
        rest@ == cards_without(cards@, dealt@),
{
    let mut rest: Vec<Card> = Vec::new();
    let mut i: usize = 0;
    proof {
        assert(cards@.take(0) =~= Seq::<Card>::empty());
    }
    while i < cards.len()
        invariant
            i <= cards@.len(),
            rest@ == cards_without(cards@.take(i as int), dealt@),
        decreases cards@.len() - i,
    {
        proof {
            assert(cards@.take(i + 1).drop_last() =~= cards@.take(i as int));
            assert(cards@.take(i + 1).last() == cards@[i as int]);
        }
        if !holds(dealt, &cards[i]) {
            rest.push(cards[i]);
        }
        i = i + 1;
    }
    proof {
        assert(cards@.take(i as int) =~= cards@);
    }
    rest
}

/// The cards of the deck that are not in the hand.
pub fn remaining_deck(dealt: &[Card]) -> (rest: Vec<Card>)
    ensures
        rest@ == cards_without(deck_cards(), dealt@),
        all_valid(rest@),
        rest@.no_duplicates(),
        rest@.len() <= 52,
        forall|c: Card| rest@.contains(c) ==> !dealt@.contains(c),
{
    let all = deck();
    let rest = cards_left(all.as_slice(), dealt);
    proof {
        lemma_deck_cards();
        lemma_cards_without(deck_cards(), dealt@);
    }
    rest
}

/// The river hand of an opponent who holds the picked cards: those two and the
/// board of `hand`.
pub open spec fn opponent_hand(rest: Seq<Card>, picks: Seq<usize>, hand: Seq<Card>) -> Seq<Card> {
    select(rest, picks) + hand.skip(2)
}

/// The strengths of the opponents' hands, one for each pick of two cards.
pub open spec fn opponent_strengths(
    table: Map<u64, i32>,
    hand: Seq<Card>,
    opponents: Seq<Seq<usize>>,
) -> Seq<i32> {
    let rest = cards_without(deck_cards(), hand);
    Seq::new(opponents.len(), |i: int| strength_of(table, opponent_hand(rest, opponents[i], hand)))
}

/// Whether the table covers the hand and the hand of every opponent.
pub open spec fn covers_showdowns(table: Map<u64, i32>, hand: Seq<Card>) -> bool {
    let rest = cards_without(deck_cards(), hand);
    &&& table_covers(table, hand)
    &&& forall|picks: Seq<usize>| #[trigger]
        is_combination(picks, rest.len(), 2) ==> table_covers(
            table,
            opponent_hand(rest, picks, hand),
        )
}

/// Every two cards that the rest of the deck can give an opponent, as
/// positions in the rest of the deck.
pub open spec fn all_opponents(hand: Seq<Card>) -> Seq<Seq<usize>> {
    all_combinations(cards_without(deck_cards(), hand).len(), 2)
}

/// The outcomes of the hand against every opponent, each counted once.
pub open spec fn river_outcomes(table: Map<u64, i32>, hand: Seq<Card>) -> Equity {
    let theirs = opponent_strengths(table, hand, all_opponents(hand));
    Equity {
        wins: wins_against(strength_of(table, hand), theirs) as u64,
        ties: ties_against(strength_of(table, hand), theirs) as u64,
        trials: theirs.len() as u64,
    }
}

/// Whether the hand beats the hand of every opponent.
pub open spec fn beats_every_opponent(table: Map<u64, i32>, hand: Seq<Card>) -> bool {
    let rest = cards_without(deck_cards(), hand);
    forall|picks: Seq<usize>| #[trigger]
        is_combination(picks, rest.len(), 2) ==> strength_of(table, hand) > strength_of(
            table,
            opponent_hand(rest, picks, hand),
        )
}

/// What the equity of a river hand is: a fault for a hand that holds a card
/// twice or that the table does not cover, the outcomes otherwise.
pub open spec fn river_result(table: Map<u64, i32>, hand: Seq<Card>) -> Result<Equity, HandError> {
    if !hand.no_duplicates() {
        Err(HandError::CanonicalizationInvariantViolation)
    } else if !covers_showdowns(table, hand) {
        Err(HandError::DatasetLookupMiss)
    } else {
        Ok(river_outcomes(table, hand))
    }
}

/// The equity of a river hand against an opponent who holds any two of the
/// cards that are left, each pick counted once.
pub fn river_equity(table: &HandTable, hand: &[Card]) -> (result: Result<Equity, HandError>)
    requires
        all_valid(hand@),
        hand@.len() == 7,
    ensures
        result == river_result(table@, hand@),
        match result {
            Ok(equity) => hand@.no_duplicates() && covers_showdowns(table@, hand@) && equity
                == river_outcomes(table@, hand@) && equity.is_valid() && (beats_every_opponent(
                table@,
                hand@,
            ) ==> equity.is_certain()),
            Err(e) => if hand@.no_duplicates() {
                e == HandError::DatasetLookupMiss && !covers_showdowns(table@, hand@)
            } else {
                e == HandError::CanonicalizationInvariantViolation
            },
        },
{
    let mine = match table.hand_strength(hand) {
        Ok(strength) => strength,
        Err(e) => {
            return Err(e);
        },
    };
    proof {
        lemma_hand_strength_unique(table@, hand@, mine);
    }
    let rest = remaining_deck(hand);
    let combos = combinations(rest.len(), 2);
    let ghost opponents = index_lists(combos@);
    let mut theirs: Vec<i32> = Vec::new();
    let mut at: usize = 0;
    while at < combos.len()
        invariant
            at <= combos@.len(),
            all_valid(hand@),
            hand@.len() == 7,
            hand@.no_duplicates(),
            rest@ == cards_without(deck_cards(), hand@),
            all_valid(rest@),
            rest@.no_duplicates(),
            forall|c: Card| rest@.contains(c) ==> !hand@.contains(c),
            opponents == index_lists(combos@),
            lists_combinations(opponents, rest@.len(), 2),
            theirs@.len() == at,
            forall|i: int|
                0 <= i < at ==> table_covers(
                    table@,
                    opponent_hand(rest@, #[trigger] opponents[i], hand@),
                ) && theirs@[i] == strength_of(
                    table@,
                    opponent_hand(rest@, opponents[i], hand@),
                ),
        decreases combos@.len() - at,
    {
        let ghost picks = opponents[at as int];
        proof {
            assert(is_combination(picks, rest@.len(), 2));
            assert(picks == combos@[at as int]@);
            lemma_select(rest@, picks, 2);
        }
        let mut other = pick(rest.as_slice(), &combos[at]);
        let mut k: usize = 2;
        while k < hand.len()
            invariant
                2 <= k <= hand@.len(),
                hand@.len() == 7,
                other@ == select(rest@, picks) + hand@.subrange(2, k as int),
            decreases hand@.len() - k,
        {
            other.push(hand[k]);
            proof {
                assert(hand@.subrange(2, k + 1) =~= hand@.subrange(2, k as int).push(hand@[k as int]));
                assert(other@ =~= select(rest@, picks) + hand@.subrange(2, k + 1));
            }
            k = k + 1;
        }
        proof {
            assert(hand@.subrange(2, 7) =~= hand@.skip(2));
            let theirs_hand = opponent_hand(rest@, picks, hand@);
            let hole = select(rest@, picks);
            assert(other@ == theirs_hand);
            assert forall|i: int| 0 <= i < theirs_hand.len() implies (#[trigger] theirs_hand[i]).is_valid() by {
                if i < 2 {
                    assert(theirs_hand[i] == hole[i]);
                } else {
                    assert(theirs_hand[i] == hand@[i]);
                }
            }
            assert forall|i: int, j: int|
                0 <= i < theirs_hand.len() && 0 <= j < theirs_hand.len() && i != j implies theirs_hand[i]
                != theirs_hand[j] by {
                if i < 2 && j < 2 {
                    assert(hole[i] != hole[j]);
                } else if i >= 2 && j >= 2 {
                    assert(hand@[i] != hand@[j]);
                } else {
                    let low = if i < j {
                        i
                    } else {
                        j
                    };
                    let high = if i < j {
                        j
                    } else {
                        i
                    };
                    assert(theirs_hand[low] == hole[low]);
                    assert(theirs_hand[high] == hand@[high]);
                    assert(picks[low] < rest@.len());
                    assert(rest@.contains(rest@[picks[low] as int]));
                    assert(hand@.contains(hand@[high]));
                }
            }
        }
        let strength = match table.hand_strength(other.as_slice()) {
            Ok(strength) => strength,
            Err(e) => {
                return Err(e);
            },
        };
        proof {
            lemma_hand_strength_unique(table@, opponent_hand(rest@, picks, hand@), strength);
        }
        theirs.push(strength);
        at = at + 1;
    }
    let equity = tally_outcomes(mine, &theirs);
    proof {
        assert(theirs@ =~= opponent_strengths(table@, hand@, opponents));
        assert forall|picks: Seq<usize>| #[trigger] is_combination(picks, rest@.len(), 2) implies table_covers(
            table@,
            opponent_hand(rest@, picks, hand@),
        ) by {
            assert(opponents.contains(picks));
            let i = choose|i: int| 0 <= i < opponents.len() && opponents[i] == picks;
            assert(table_covers(table@, opponent_hand(rest@, opponents[i], hand@)));
        }
        assert(opponents == all_opponents(hand@));
        if beats_every_opponent(table@, hand@) {
            assert forall|i: int| 0 <= i < theirs@.len() implies mine > theirs@[i] by {
                assert(is_combination(opponents[i], rest@.len(), 2));
            }
        }
    }
    Ok(equity)
}

/// The key of the class of a river hand: that of its canonical form, the hole
/// cards told apart from the board.
pub open spec fn river_key(cards: Seq<Card>) -> u64 {
    hand_key(canonical_cards(cards, true))
}

/// The equity of every canonical river hand.
pub struct EquityTable {
    equities: HashMap<u64, Equity>,
}

impl EquityTable {
    /// The equities by key.
    pub closed spec fn view(&self) -> Map<u64, Equity> {
        self.equities@
    }

    /// A table that holds no hand yet.
    pub fn new() -> (table: EquityTable)
        ensures
            table@ == Map::<u64, Equity>::empty(),
    {
        EquityTable { equities: HashMap::new() }
    }

    /// Puts the equity of a hand into the table, under the hand as it is written.
    pub fn insert(&mut self, cards: &[Card], equity: Equity) -> (result: Result<(), HandError>)
        requires
            all_valid(cards@),
        ensures
            match result {
                Ok(_) => cards@.len() <= 8 && final(self)@ == old(self)@.insert(
                    hand_key(cards@),
                    equity,
                ),
                Err(e) => cards@.len() > 8 && e == HandError::CapacityExceeded && final(self)@
                    == old(self)@,
            },
    {
        broadcast use vstd::std_specs::hash::group_hash_axioms;

        match pack(cards) {
            Ok(key) => {
                self.equities.insert(key, equity);
                Ok(())
            },
            Err(e) => Err(e),
        }
    }

    /// The equity of a river hand, from the entry of its class.
    pub fn lookup(&self, cards: &[Card]) -> (result: Result<Equity, HandError>)
        requires
            all_valid(cards@),
            cards@.len() == 7,
        ensures
            result == if !cards@.no_duplicates() {
                Err::<Equity, HandError>(HandError::CanonicalizationInvariantViolation)
            } else if self@.contains_key(river_key(cards@)) {
                Ok::<Equity, HandError>(self@[river_key(cards@)])
            } else {
                Err::<Equity, HandError>(HandError::DatasetLookupMiss)
            },
    {
        broadcast use vstd::std_specs::hash::group_hash_axioms;

        let canonical = match canonical_hand(cards, true) {
            Ok(canonical) => canonical,
            Err(e) => {
                return Err(e);
            },
        };
        proof {
            lemma_pack_bounds(canonical@);
            lemma_slot_range_of_eight();
        }
        let key = match pack(canonical.as_slice()) {
            Ok(key) => key,
            Err(e) => {
                return Err(e);
            },
        };
        match self.equities.get(&key) {
            Some(equity) => Ok(*equity),
            None => Err(HandError::DatasetLookupMiss),
        }
    }
}

/// Whether every hand is a river hand of deck cards.
pub open spec fn are_river_hands(hands: Seq<Vec<Card>>) -> bool {
    forall|i: int| 0 <= i < hands.len() ==> all_valid((#[trigger] hands[i])@) && hands[i]@.len() == 7
}

/// The table after the equities of the hands from `from` up to `upto` have
/// been put into it, each under the hand as it is written.
pub open spec fn with_equities(
    before: Map<u64, Equity>,
    strengths: Map<u64, i32>,
    hands: Seq<Vec<Card>>,
    from: int,
    upto: int,
) -> Map<u64, Equity>
    decreases upto - from,
{
    if upto <= from {
        before
    } else {
        with_equities(before, strengths, hands, from, upto - 1).insert(
            hand_key(hands[upto - 1]@),
            river_outcomes(strengths, hands[upto - 1]@),
        )
    }
}

/// Putting in one run of hands and then the next is putting in both.
pub proof fn lemma_with_equities_split(
    before: Map<u64, Equity>,
    strengths: Map<u64, i32>,
    hands: Seq<Vec<Card>>,
    from: int,
    mid: int,
    upto: int,
)
    requires
        from <= mid <= upto,
    ensures
        with_equities(with_equities(before, strengths, hands, from, mid), strengths, hands, mid, upto)
            == with_equities(before, strengths, hands, from, upto),
    decreases upto - mid,
{
    if upto > mid {
        lemma_with_equities_split(before, strengths, hands, from, mid, upto - 1);
    }
}

/// The hands from `start` on that one batch takes: `batch` of them, or those
/// that are left.
pub fn batch_end(total: usize, batch: usize, start: usize) -> (end: usize)
    requires
        start <= total,
    ensures
        end == if total - start <= batch {
            total as int
        } else {
            start + batch
        },
        start <= end <= total,
{
    if total - start <= batch {
        total
    } else {
        start + batch
    }
}

impl EquityTable {
    /// Whether the table holds an equity under the hand as it is written.
    pub fn contains(&self, cards: &[Card]) -> (found: bool)
        requires
            all_valid(cards@),
            cards@.len() <= 8,
        ensures
            found == self@.contains_key(hand_key(cards@)),
    {
        broadcast use vstd::std_specs::hash::group_hash_axioms;

        proof {
            lemma_pack_bounds(cards@);
            lemma_slot_range_of_eight();
        }
        match pack(cards) {
            Ok(key) => self.equities.contains_key(&key),
            Err(_) => false,
        }
    }

    /// The first hand from `from` on that the table does not hold yet: where a
    /// build that was cut short goes on.
    pub fn first_missing(&self, hands: &Vec<Vec<Card>>, from: usize) -> (at: usize)
        requires
            from <= hands@.len(),
            are_river_hands(hands@),
        ensures
            from <= at <= hands@.len(),
            forall|i: int| from <= i < at ==> self@.contains_key(hand_key((#[trigger] hands@[i])@)),
            at < hands@.len() ==> !self@.contains_key(hand_key(hands@[at as int]@)),
    {
        let mut at: usize = from;
        while at < hands.len()
            invariant
                from <= at <= hands@.len(),
                are_river_hands(hands@),
                forall|i: int|
                    from <= i < at ==> self@.contains_key(hand_key((#[trigger] hands@[i])@)),
            decreases hands@.len() - at,
        {
            assert(all_valid(hands@[at as int]@) && hands@[at as int]@.len() == 7);
            if !self.contains(hands[at].as_slice()) {
                return at;
            }
            at = at + 1;
        }
        at
    }

    /// Works out the equities of the hands from `from` up to `to` and puts
    /// them into the table. At the first hand that has none the work stops.
    pub fn insert_batch(
        &mut self,
        strengths: &HandTable,
        hands: &Vec<Vec<Card>>,
        from: usize,
        to: usize,
    ) -> (result: Result<(), HandError>)
        requires
            from <= to <= hands@.len(),
            are_river_hands(hands@),
        ensures
            match result {
                Ok(_) => final(self)@ == with_equities(
                    old(self)@,
                    strengths@,
                    hands@,
                    from as int,
                    to as int,
                ) && forall|i: int|
                    from <= i < to ==> river_result(strengths@, (#[trigger] hands@[i])@) is Ok,
                Err(e) => exists|i: int|
                    from <= i < to && river_result(strengths@, (#[trigger] hands@[i])@) == Err::<
                        Equity,
                        HandError,
                    >(e) && final(self)@ == with_equities(
                        old(self)@,
                        strengths@,
                        hands@,
                        from as int,
                        i,
                    ) && forall|j: int|
                        from <= j < i ==> river_result(strengths@, (#[trigger] hands@[j])@) is Ok,
            },
    {
        let mut at: usize = from;
        while at < to
            invariant
                from <= at <= to <= hands@.len(),
                are_river_hands(hands@),
                self@ == with_equities(old(self)@, strengths@, hands@, from as int, at as int),
                forall|i: int|
                    from <= i < at ==> river_result(strengths@, (#[trigger] hands@[i])@) is Ok,
            decreases to - at,
        {
            assert(all_valid(hands@[at as int]@) && hands@[at as int]@.len() == 7);
            let equity = match river_equity(strengths, hands[at].as_slice()) {
                Ok(equity) => equity,
                Err(e) => {
                    return Err(e);
                },
            };
            match self.insert(hands[at].as_slice(), equity) {
                Ok(_) => {},
                Err(e) => {
                    return Err(e);
                },
            }
            at = at + 1;
        }
        Ok(())
    }

    /// Builds the table of the equities of the given river hands, batch by
    /// batch.
    pub fn make_equity_table(
        strengths: &HandTable,
        hands: &Vec<Vec<Card>>,
        batch: usize,
    ) -> (result: Result<EquityTable, HandError>)
        requires
            batch > 0,
            are_river_hands(hands@),
        ensures
            match result {
                Ok(table) => table@ == with_equities(
                    Map::<u64, Equity>::empty(),
                    strengths@,
                    hands@,
                    0,
                    hands@.len() as int,
                ) && forall|i: int|
                    0 <= i < hands@.len() ==> river_result(strengths@, (#[trigger] hands@[i])@) is Ok,
                Err(e) => exists|i: int|
                    0 <= i < hands@.len() && river_result(strengths@, (#[trigger] hands@[i])@)
                        == Err::<Equity, HandError>(e) && forall|j: int|
                        0 <= j < i ==> river_result(strengths@, (#[trigger] hands@[j])@) is Ok,
            },
    {
        let mut table = EquityTable::new();
        let mut start: usize = 0;
        while start < hands.len()
            invariant
                start <= hands@.len(),
                batch > 0,
                are_river_hands(hands@),
                table@ == with_equities(
                    Map::<u64, Equity>::empty(),
                    strengths@,
                    hands@,
                    0,
                    start as int,
                ),
                forall|i: int|
                    0 <= i < start ==> river_result(strengths@, (#[trigger] hands@[i])@) is Ok,
            decreases hands@.len() - start,
        {
            let end = batch_end(hands.len(), batch, start);
            let ghost before = table@;
            match table.insert_batch(strengths, hands, start, end) {
                Ok(_) => {},
                Err(e) => {
                    return Err(e);
                },
            }
            proof {
                lemma_with_equities_split(
                    Map::<u64, Equity>::empty(),
                    strengths@,
                    hands@,
                    0,
                    start as int,
                    end as int,
                );
            }
            start = end;
        }
        Ok(table)
    }
}

} // verus!
