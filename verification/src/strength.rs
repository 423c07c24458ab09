//! The strength table: the rank of every canonical five-card hand among all
//! five-card hands, and from it the strength of hands of five to seven cards.

use crate::canonical::{canonical_cards, canonical_hand, contains_duplicates, relabel};
use crate::card::{all_valid, Card};
use crate::combos::{
    combinations, index_lists, is_combination, lemma_select, lists_combinations, pick, select,
};
use crate::compact::{lemma_pack_bounds, lemma_slot_range_of_eight, pack};
use crate::dataset::{
    entry_texts, hand_key, is_dataset, is_hand_text, json_numbers, keyed_entries, keyed_table,
    table_from_json, table_of_entries,
};
use crate::error::HandError;
use crate::ranks::is_suit_permutation;
use crate::symmetry::lemma_canonical_symmetric;
use std::collections::HashMap;
use vstd::prelude::*;

verus! {

/// The cards in a hand whose strength the table holds.
pub const STRENGTH_CARDS: usize = 5;

/// The key of the class of a five-card hand: that of its canonical form,
/// streets not told apart.
pub open spec fn strength_key(five: Seq<Card>) -> u64 {
    hand_key(canonical_cards(five, false))
}

/// Whether the table holds the class of every five cards picked from the hand.
pub open spec fn table_covers(table: Map<u64, i32>, hand: Seq<Card>) -> bool {
    forall|picks: Seq<usize>| #[trigger]
        is_combination(picks, hand.len(), 5) ==> table.contains_key(
            strength_key(select(hand, picks)),
        )
}

/// Whether `strength` is the greatest strength of any five cards picked from
/// the hand.
pub open spec fn is_hand_strength(table: Map<u64, i32>, hand: Seq<Card>, strength: i32) -> bool {
    &&& table_covers(table, hand)
    &&& forall|picks: Seq<usize>| #[trigger]
        is_combination(picks, hand.len(), 5) ==> table[strength_key(select(hand, picks))]
            <= strength
    &&& exists|picks: Seq<usize>| #[trigger]
        is_combination(picks, hand.len(), 5) && table[strength_key(select(hand, picks))]
            == strength
}

/// The strength of a hand, where the table covers it.
pub open spec fn strength_of(table: Map<u64, i32>, hand: Seq<Card>) -> i32 {
    choose|strength: i32| is_hand_strength(table, hand, strength)
}

/// A hand has one strength.
pub proof fn lemma_hand_strength_unique(table: Map<u64, i32>, hand: Seq<Card>, strength: i32)
    requires
        is_hand_strength(table, hand, strength),
    ensures
        strength_of(table, hand) == strength,
{
    let other = strength_of(table, hand);
    assert(is_hand_strength(table, hand, other));
    let first = choose|picks: Seq<usize>| #[trigger]
        is_combination(picks, hand.len(), 5) && table[strength_key(select(hand, picks))]
            == strength;
    let second = choose|picks: Seq<usize>| #[trigger]
        is_combination(picks, hand.len(), 5) && table[strength_key(select(hand, picks))] == other;
    assert(is_combination(first, hand.len(), 5));
    assert(is_combination(second, hand.len(), 5));
}

/// The strength of a hand does not depend on the names of its suits.
pub proof fn lemma_strength_ignores_suit_names(
    table: Map<u64, i32>,
    hand: Seq<Card>,
    perm: Seq<u8>,
    strength: i32,
)
    requires
        all_valid(hand),
        is_suit_permutation(perm),
    ensures
        table_covers(table, relabel(hand, perm)) == table_covers(table, hand),
        is_hand_strength(table, relabel(hand, perm), strength) == is_hand_strength(
            table,
            hand,
            strength,
        ),
{
    let turned = relabel(hand, perm);
    assert forall|picks: Seq<usize>| #[trigger]
        is_combination(picks, hand.len(), 5) implies strength_key(select(turned, picks))
        == strength_key(select(hand, picks)) by {
        lemma_select(hand, picks, 5);
        assert(select(turned, picks) =~= relabel(select(hand, picks), perm));
        lemma_canonical_symmetric(select(hand, picks), perm, false);
    }
    if is_hand_strength(table, hand, strength) {
        let picks = choose|picks: Seq<usize>| #[trigger]
            is_combination(picks, hand.len(), 5) && table[strength_key(select(hand, picks))]
                == strength;
        assert(is_combination(picks, turned.len(), 5));
    }
    if is_hand_strength(table, turned, strength) {
        let picks = choose|picks: Seq<usize>| #[trigger]
            is_combination(picks, turned.len(), 5) && table[strength_key(select(turned, picks))]
                == strength;
        assert(is_combination(picks, hand.len(), 5));
    }
}

/// For fast comparison of hands: the strength of each class of five cards.
pub struct HandTable {
    strengths: HashMap<u64, i32>,
}

impl HandTable {
    /// The strengths by key.
    pub closed spec fn view(&self) -> Map<u64, i32> {
        self.strengths@
    }

    /// A table that holds no hand yet.
    pub fn new() -> (table: HandTable)
        ensures
            table@ == Map::<u64, i32>::empty(),
    {
        HandTable { strengths: HashMap::new() }
    }

    /// Reads the strength dataset: a JSON object that gives a strength to the
    /// text of each of some hands of five cards.
    pub fn from_json(text: &str) -> (result: Result<HandTable, HandError>)
        ensures
            match result {
                Ok(table) => is_dataset(text@, 5) && table@ == keyed_table(json_numbers(text@)->0),
                Err(e) => !is_dataset(text@, 5) && e == HandError::ParseError,
            },
    {
        match table_from_json(text, STRENGTH_CARDS) {
            Ok(strengths) => Ok(HandTable { strengths }),
            Err(e) => Err(e),
        }
    }

    /// Puts the strength of a hand into the table, under the hand as it is written.
    pub fn insert(&mut self, cards: &[Card], strength: i32) -> (result: Result<(), HandError>)
        requires
            all_valid(cards@),
        ensures
            match result {
                Ok(_) => cards@.len() <= 8 && final(self)@ == old(self)@.insert(
                    hand_key(cards@),
                    strength,
                ),
                Err(e) => cards@.len() > 8 && e == HandError::CapacityExceeded && final(self)@
                    == old(self)@,
            },
    {
        broadcast use vstd::std_specs::hash::group_hash_axioms;

        match pack(cards) {
            Ok(key) => {
                self.strengths.insert(key, strength);
                Ok(())
            },
            Err(e) => Err(e),
        }
    }

    /// The strength that the table holds under a key.
    pub fn get(&self, key: u64) -> (strength: Option<i32>)
        ensures
            strength == if self@.contains_key(key) {
                Some(self@[key])
            } else {
                None
            },
    {
        broadcast use vstd::std_specs::hash::group_hash_axioms;

        match self.strengths.get(&key) {
            Some(strength) => Some(*strength),
            None => None,
        }
    }

    /// The strength of a hand of five to seven cards: the greatest strength of
    /// any five of them. A hand that holds a card twice has no canonical form,
    /// and a class that the table lacks is a fault in the table.
    pub fn hand_strength(&self, hand: &[Card]) -> (result: Result<i32, HandError>)
        requires
            all_valid(hand@),
            5 <= hand@.len() <= 7,
        ensures
            match result {
                Ok(strength) => hand@.no_duplicates() && is_hand_strength(self@, hand@, strength),
                Err(e) => if hand@.no_duplicates() {
                    e == HandError::DatasetLookupMiss && !table_covers(self@, hand@)
                } else {
                    e == HandError::CanonicalizationInvariantViolation
                },
            },
    {
        if contains_duplicates(hand) {
            return Err(HandError::CanonicalizationInvariantViolation);
        }
        let combos = combinations(hand.len(), STRENGTH_CARDS);
        let ghost lists = index_lists(combos@);
        let ghost n = hand@.len();
        let mut best: Option<i32> = None;
        let mut at: usize = 0;
        while at < combos.len()
            invariant
                at <= combos@.len(),
                all_valid(hand@),
                hand@.no_duplicates(),
                n == hand@.len(),
                lists == index_lists(combos@),
                lists_combinations(lists, n, 5),
                forall|i: int|
                    0 <= i < at ==> self@.contains_key(
                        strength_key(select(hand@, #[trigger] lists[i])),
                    ),
                at == 0 <==> best is None,
                best is Some ==> forall|i: int|
                    0 <= i < at ==> self@[strength_key(select(hand@, #[trigger] lists[i]))]
                        <= best->0,
                best is Some ==> exists|i: int|
                    0 <= i < at && self@[strength_key(select(hand@, #[trigger] lists[i]))]
                        == best->0,
            decreases combos@.len() - at,
        {
            let ghost picks = lists[at as int];
            proof {
                assert(is_combination(picks, n, 5));
                assert(picks == combos@[at as int]@);
                lemma_select(hand@, picks, 5);
            }
            let five = pick(hand, &combos[at]);
            let key = match canonical_hand(five.as_slice(), false) {
                Ok(canonical) => {
                    proof {
                        lemma_pack_bounds(canonical@);
                        lemma_slot_range_of_eight();
                    }
                    match pack(canonical.as_slice()) {
                        Ok(key) => key,
                        Err(e) => {
                            return Err(e);
                        },
                    }
                },
                Err(e) => {
                    return Err(e);
                },
            };
            assert(key == strength_key(select(hand@, picks)));
            let strength = match self.get(key) {
                Some(strength) => strength,
                None => {
                    return Err(HandError::DatasetLookupMiss);
                },
            };
            let ghost before = best;
            best = match best {
                Some(known) => if strength > known {
                    Some(strength)
                } else {
                    Some(known)
                },
                None => Some(strength),
            };
            proof {
                assert(self@[strength_key(select(hand@, lists[at as int]))] == strength);
                if before is Some && strength <= before->0 {
                    let w = choose|i: int|
                        0 <= i < at && self@[strength_key(select(hand@, #[trigger] lists[i]))]
                            == before->0;
                    assert(0 <= w < at + 1);
                }
            }
            at = at + 1;
        }
        proof {
            let first: Seq<usize> = seq![0usize, 1usize, 2usize, 3usize, 4usize];
            assert(is_combination(first, n, 5));
            assert(lists.contains(first));
            assert(at > 0);
            let strength = best->0;
            assert forall|picks: Seq<usize>| #[trigger] is_combination(picks, n, 5) implies self@.contains_key(
                strength_key(select(hand@, picks)),
            ) && self@[strength_key(select(hand@, picks))] <= strength by {
                assert(lists.contains(picks));
                let i = choose|i: int| 0 <= i < lists.len() && lists[i] == picks;
                assert(self@.contains_key(strength_key(select(hand@, lists[i]))));
            }
            let w = choose|i: int|
                0 <= i < at && self@[strength_key(select(hand@, #[trigger] lists[i]))] == strength;
            assert(is_combination(lists[w], n, 5));
        }
        match best {
            Some(strength) => Ok(strength),
            None => Err(HandError::DatasetLookupMiss),
        }
    }
}

/// Builds the strength table from the entries of the strength dataset: a text
/// of five cards and a strength each.
pub fn load_hand_strengths(entries: &Vec<(String, i32)>) -> (result: Result<HandTable, HandError>)
    ensures
        match result {
            Ok(table) => table@ == table_of_entries(entry_texts(entries@)) && forall|i: int|
                0 <= i < entries@.len() ==> is_hand_text((#[trigger] entries@[i]).0@, 5),
            Err(e) => e == HandError::ParseError && exists|i: int|
                0 <= i < entries@.len() && !is_hand_text((#[trigger] entries@[i]).0@, 5),
        },
{
    match keyed_entries(entries, STRENGTH_CARDS) {
        Ok(strengths) => Ok(HandTable { strengths }),
        Err(e) => Err(e),
    }
}

} // verus!
