//! The abstraction of hands: a bucket id for every hand, so that hands that
//! play alike are treated as one.

use crate::canonical::{canonical_cards, canonical_hand, relabel};
use crate::card::{all_valid, Card};
use crate::compact::{lemma_pack_bounds, lemma_slot_range_of_eight, pack};
use crate::error::HandError;
use crate::laws::lemma_relabel_duplicates;
use crate::ranks::is_suit_permutation;
use crate::symmetry::lemma_canonical_symmetric;
use crate::dataset::{buckets_not_negative, hand_key};
use std::collections::HashMap;
use vstd::prelude::*;

verus! {

/// The cards of a hand before the flop.
pub const PREFLOP_CARDS: usize = 2;

/// The cards of a hand on the flop.
pub const FLOP_CARDS: usize = 5;

/// The cards of a hand on the turn.
pub const TURN_CARDS: usize = 6;

/// The cards of a hand on the river.
pub const RIVER_CARDS: usize = 7;

/// The bucket of two hole cards: twice the sum of a hundred times the lower
/// rank and the higher rank, and one more if the cards are of one suit.
pub open spec fn preflop_class(first: Card, second: Card) -> int {
    let low = if first.rank <= second.rank {
        first.rank
    } else {
        second.rank
    };
    let high = if first.rank <= second.rank {
        second.rank
    } else {
        first.rank
    };
    2 * (100 * low + high) + if first.suit == second.suit {
        1int
    } else {
        0int
    }
}

/// The key of the class of a hand with a board: that of its canonical form,
/// the hole cards told apart from the board.
pub open spec fn street_key(cards: Seq<Card>) -> u64 {
    hand_key(canonical_cards(cards, true))
}

/// Whether a hand has the cards of a street.
pub open spec fn is_street_len(n: nat) -> bool {
    n == 2 || n == 5 || n == 6 || n == 7
}

/// Two pairs of hole cards are in one bucket exactly if they have the same
/// ranks and are both suited or both not, whatever the order of the cards and
/// the names of the suits.
pub proof fn lemma_preflop_classes(a: Card, b: Card, c: Card, d: Card)
    requires
        a.is_valid(),
        b.is_valid(),
        c.is_valid(),
        d.is_valid(),
    ensures
        preflop_class(a, b) == preflop_class(b, a),
        preflop_class(a, b) == preflop_class(c, d) <==> (a.suit == b.suit <==> c.suit == d.suit) && (
        (a.rank == c.rank && b.rank == d.rank) || (a.rank == d.rank && b.rank == c.rank)),
{
}

/// The buckets of the flop, the turn and the river, each by the key of the
/// hand's class.
pub struct Abstraction {
    flop: HashMap<u64, i32>,
    turn: HashMap<u64, i32>,
    river: HashMap<u64, i32>,
}

impl Abstraction {
    /// The buckets of the flop by key.
    pub closed spec fn flop(&self) -> Map<u64, i32> {
        self.flop@
    }

    /// The buckets of the turn by key.
    pub closed spec fn turn(&self) -> Map<u64, i32> {
        self.turn@
    }

    /// The buckets of the river by key.
    pub closed spec fn river(&self) -> Map<u64, i32> {
        self.river@
    }

    /// Whether no bucket of any street is negative.
    pub open spec fn is_valid(&self) -> bool {
        buckets_not_negative(self.flop()) && buckets_not_negative(self.turn())
            && buckets_not_negative(self.river())
    }

    /// The buckets of the street on which a hand has `n` cards.
    pub open spec fn street(&self, n: nat) -> Map<u64, i32> {
        if n == 5 {
            self.flop()
        } else if n == 6 {
            self.turn()
        } else {
            self.river()
        }
    }

    /// An abstraction that holds no bucket yet.
    pub fn new() -> (abstraction: Abstraction)
        ensures
            abstraction.flop() == Map::<u64, i32>::empty(),
            abstraction.turn() == Map::<u64, i32>::empty(),
            abstraction.river() == Map::<u64, i32>::empty(),
            abstraction.is_valid(),
    {
        Abstraction { flop: load_flop_abstraction(), turn: load_turn_abstraction(), river: HashMap::new() }
    }

    /// Takes the given table as the buckets of the flop.
    pub fn set_flop(&mut self, table: HashMap<u64, i32>)
        requires
            buckets_not_negative(table@),
        ensures
            old(self).is_valid() ==> final(self).is_valid(),
            final(self).flop() == table@,
            final(self).turn() == old(self).turn(),
            final(self).river() == old(self).river(),
    {
        self.flop = table;
    }

    /// Takes the given table as the buckets of the turn.
    pub fn set_turn(&mut self, table: HashMap<u64, i32>)
        requires
            buckets_not_negative(table@),
        ensures
            old(self).is_valid() ==> final(self).is_valid(),
            final(self).turn() == table@,
            final(self).flop() == old(self).flop(),
            final(self).river() == old(self).river(),
    {
        self.turn = table;
    }

    /// Takes the given table as the buckets of the river.
    pub fn set_river(&mut self, table: HashMap<u64, i32>)
        requires
            buckets_not_negative(table@),
        ensures
            old(self).is_valid() ==> final(self).is_valid(),
            final(self).river() == table@,
            final(self).flop() == old(self).flop(),
            final(self).turn() == old(self).turn(),
    {
        self.river = table;
    }

    /// Puts the bucket of a hand into the table of its street, under the hand
    /// as it is written.
    pub fn insert(&mut self, cards: &[Card], bucket: i32)
        requires
            all_valid(cards@),
            5 <= cards@.len() <= 7,
            bucket >= 0,
        ensures
            old(self).is_valid() ==> final(self).is_valid(),
            final(self).street(cards@.len()) == old(self).street(cards@.len()).insert(
                hand_key(cards@),
                bucket,
            ),
            forall|n: nat| 5 <= n <= 7 && n != cards@.len() ==> final(self).street(n) == old(self).street(n),
    {
        broadcast use vstd::std_specs::hash::group_hash_axioms;

        proof {
            lemma_pack_bounds(cards@);
            lemma_slot_range_of_eight();
        }
        match pack(cards) {
            Ok(key) => {
                if cards.len() == FLOP_CARDS {
                    self.flop.insert(key, bucket);
                } else if cards.len() == TURN_CARDS {
                    self.turn.insert(key, bucket);
                } else {
                    self.river.insert(key, bucket);
                }
            },
            Err(_) => {},
        }
    }

    /// The bucket of a hand of two, five, six or seven cards.
    pub fn abstract_id(&self, cards: &[Card]) -> (result: Result<i32, HandError>)
        requires
            all_valid(cards@),
            is_street_len(cards@.len()),
        ensures
            result == if cards@.len() == 2 {
                Ok::<i32, HandError>(preflop_class(cards@[0], cards@[1]) as i32)
            } else if !cards@.no_duplicates() {
                Err::<i32, HandError>(HandError::CanonicalizationInvariantViolation)
            } else if self.street(cards@.len()).contains_key(street_key(cards@)) {
                Ok::<i32, HandError>(self.street(cards@.len())[street_key(cards@)])
            } else {
                Err::<i32, HandError>(HandError::DatasetLookupMiss)
            },
            self.is_valid() && result is Ok ==> result->Ok_0 >= 0,
    {
        proof {
            assert(cards@[0].is_valid() && cards@[1].is_valid());
        }
        if cards.len() == PREFLOP_CARDS {
            Ok(self.preflop_bin(cards))
        } else if cards.len() == FLOP_CARDS {
            self.flop_bin(cards)
        } else if cards.len() == TURN_CARDS {
            self.turn_bin(cards)
        } else {
            assert(cards@.len() == RIVER_CARDS);
            self.river_bin(cards)
        }
    }

    /// The bucket of two hole cards.
    pub fn preflop_bin(&self, cards: &[Card]) -> (bin: i32)
        requires
            all_valid(cards@),
            cards@.len() == 2,
        ensures
            bin == preflop_class(cards@[0], cards@[1]),
    {
        assert(cards@[0].is_valid() && cards@[1].is_valid());
        let first = cards[0];
        let second = cards[1];
        let low: i32 = if first.rank <= second.rank {
            first.rank as i32
        } else {
            second.rank as i32
        };
        let high: i32 = if first.rank <= second.rank {
            second.rank as i32
        } else {
            first.rank as i32
        };
        let mut bin: i32 = 2 * (low * 100 + high);
        if first.suit == second.suit {
            bin = bin + 1;
        }
        bin
    }

    /// The bucket of a hand on the flop.
    pub fn flop_bin(&self, cards: &[Card]) -> (result: Result<i32, HandError>)
        requires
            all_valid(cards@),
            cards@.len() == 5,
        ensures
            result == street_bucket(self.flop(), cards@),
    {
        lookup_bucket(&self.flop, cards)
    }

    /// The bucket of a hand on the turn.
    pub fn turn_bin(&self, cards: &[Card]) -> (result: Result<i32, HandError>)
        requires
            all_valid(cards@),
            cards@.len() == 6,
        ensures
            result == street_bucket(self.turn(), cards@),
    {
        lookup_bucket(&self.turn, cards)
    }

    /// The bucket of a hand on the river.
    pub fn river_bin(&self, cards: &[Card]) -> (result: Result<i32, HandError>)
        requires
            all_valid(cards@),
            cards@.len() == 7,
        ensures
            result == street_bucket(self.river(), cards@),
    {
        lookup_bucket(&self.river, cards)
    }
}

/// The bucket that a table holds for the class of a hand.
pub open spec fn street_bucket(table: Map<u64, i32>, cards: Seq<Card>) -> Result<i32, HandError> {
    if !cards.no_duplicates() {
        Err(HandError::CanonicalizationInvariantViolation)
    } else if table.contains_key(street_key(cards)) {
        Ok(table[street_key(cards)])
    } else {
        Err(HandError::DatasetLookupMiss)
    }
}

/// The bucket of a hand with a board does not depend on the names of its suits.
pub proof fn lemma_bucket_ignores_suit_names(table: Map<u64, i32>, cards: Seq<Card>, perm: Seq<u8>)
    requires
        all_valid(cards),
        is_suit_permutation(perm),
    ensures
        street_bucket(table, relabel(cards, perm)) == street_bucket(table, cards),
{
    lemma_canonical_symmetric(cards, perm, true);
    lemma_relabel_duplicates(cards, perm);
}

fn lookup_bucket(table: &HashMap<u64, i32>, cards: &[Card]) -> (result: Result<i32, HandError>)
    requires
        all_valid(cards@),
        cards@.len() <= 8,
    ensures
        result == street_bucket(table@, cards@),
{
    broadcast use vstd::std_specs::hash::group_hash_axioms;

    let canonical = match canonical_hand(cards, true) {
        Ok(canonical) => canonical,
        Err(e) => {
            return Err(e);
        },
    };
    proof {
        lemma_pack_bounds(canonical@);
        lemma_slot_range_of_eight();
    }
    let key = match pack(canonical.as_slice()) {
        Ok(key) => key,
        Err(e) => {
            return Err(e);
        },
    };
    match table.get(&key) {
        Some(bucket) => Ok(*bucket),
        None => Err(HandError::DatasetLookupMiss),
    }
}

/// The table of the flop before any bucket is put into it.
pub fn load_flop_abstraction() -> (table: HashMap<u64, i32>)
    ensures
        table@ == Map::<u64, i32>::empty(),
{
    HashMap::new()
}

/// The table of the turn before any bucket is put into it.
pub fn load_turn_abstraction() -> (table: HashMap<u64, i32>)
    ensures
        table@ == Map::<u64, i32>::empty(),
{
    HashMap::new()
}

} // verus!
