//! Building the abstraction of a street: the equity distribution of every
//! canonical hand, and from the distributions the buckets.

use crate::card::{all_valid, Card};
use crate::cluster::{cluster, cluster_buckets, data_rows};
use crate::compact::{lemma_pack_bounds, lemma_slot_range_of_eight, pack};
use crate::deal::{deal_canonical, deals_from};
use crate::distribution::{distribution_fault, equity_distribution, is_distribution};
use crate::error::HandError;
use crate::dataset::{buckets_not_negative, hand_key};
use crate::strength::HandTable;
use std::collections::HashMap;
use vstd::prelude::*;

verus! {

/// Whether every hand is a hand of deck cards on the flop or the turn.
pub open spec fn are_street_hands(hands: Seq<Vec<Card>>) -> bool {
    forall|i: int|
        0 <= i < hands.len() ==> all_valid((#[trigger] hands[i])@) && 5 <= hands[i]@.len() <= 6
}

/// The table that entries make, later entries replacing earlier ones.
pub open spec fn table_of_buckets(entries: Seq<(u64, i32)>) -> Map<u64, i32>
    decreases entries.len(),
{
    if entries.len() == 0 {
        Map::empty()
    } else {
        table_of_buckets(entries.drop_last()).insert(entries.last().0, entries.last().1)
    }
}

/// The equity distribution of each hand, under the key of the hand as it is
/// written. At the first hand that has none the work stops.
pub fn equity_distributions(
    table: &HandTable,
    hands: &Vec<Vec<Card>>,
) -> (result: Result<Vec<(u64, Vec<u64>)>, HandError>)
    requires
        are_street_hands(hands@),
    ensures
        match result {
            Ok(rows) => rows@.len() == hands@.len() && forall|i: int|
                0 <= i < hands@.len() ==> (#[trigger] rows@[i]).0 == hand_key(hands@[i]@)
                    && distribution_fault(table@, hands@[i]@) is None && is_distribution(
                    table@,
                    hands@[i]@,
                    rows@[i].1@,
                ),
            Err(e) => exists|i: int|
                0 <= i < hands@.len() && distribution_fault(table@, (#[trigger] hands@[i])@)
                    == Some(e) && forall|j: int|
                    0 <= j < i ==> distribution_fault(table@, (#[trigger] hands@[j])@) is None,
        },
{
    let mut rows: Vec<(u64, Vec<u64>)> = Vec::new();
    let mut at: usize = 0;
    while at < hands.len()
        invariant
            at <= hands@.len(),
            are_street_hands(hands@),
            rows@.len() == at,
            forall|i: int|
                0 <= i < at ==> (#[trigger] rows@[i]).0 == hand_key(hands@[i]@)
                    && distribution_fault(table@, hands@[i]@) is None && is_distribution(
                    table@,
                    hands@[i]@,
                    rows@[i].1@,
                ),
        decreases hands@.len() - at,
    {
        assert(all_valid(hands@[at as int]@) && 5 <= hands@[at as int]@.len() <= 6);
        let counts = match equity_distribution(table, hands[at].as_slice()) {
            Ok(counts) => counts,
            Err(e) => {
                proof {
                    assert forall|j: int| 0 <= j < at implies distribution_fault(
                        table@,
                        (#[trigger] hands@[j])@,
                    ) is None by {
                        assert(rows@[j].0 == hand_key(hands@[j]@));
                    }
                }
                return Err(e);
            },
        };
        proof {
            lemma_pack_bounds(hands@[at as int]@);
            lemma_slot_range_of_eight();
        }
        let key = match pack(hands[at].as_slice()) {
            Ok(key) => key,
            Err(e) => {
                return Err(e);
            },
        };
        rows.push((key, counts));
        at = at + 1;
    }
    Ok(rows)
}

/// The equity distribution of every canonical hand on the flop, the hole
/// cards told apart from the board.
pub fn make_flop_equity(table: &HandTable) -> (result: Result<Vec<(u64, Vec<u64>)>, HandError>)
    ensures
        match result {
            Ok(rows) => {
                let hands = deals_from(Seq::<Card>::empty(), 5, true);
                rows@.len() == hands.len() && forall|i: int|
                    0 <= i < hands.len() ==> (#[trigger] rows@[i]).0 == hand_key(hands[i])
                        && distribution_fault(table@, hands[i]) is None && is_distribution(
                        table@,
                        hands[i],
                        rows@[i].1@,
                    )
            },
            Err(e) => exists|i: int|
                0 <= i < deals_from(Seq::<Card>::empty(), 5, true).len() && distribution_fault(
                    table@,
                    #[trigger] deals_from(Seq::<Card>::empty(), 5, true)[i],
                ) == Some(e),
        },
{
    let hands = deal_canonical(5, true);
    proof {
        let dealt = deals_from(Seq::<Card>::empty(), 5, true);
        assert forall|i: int| 0 <= i < hands@.len() implies dealt[i] == (#[trigger] hands@[i])@ by {}
    }
    match equity_distributions(table, &hands) {
        Ok(rows) => {
            proof {
                let dealt = deals_from(Seq::<Card>::empty(), 5, true);
                assert forall|i: int| 0 <= i < dealt.len() implies (#[trigger] rows@[i]).0
                    == hand_key(dealt[i]) && distribution_fault(table@, dealt[i]) is None
                    && is_distribution(table@, dealt[i], rows@[i].1@) by {
                    assert(dealt[i] == hands@[i]@);
                }
            }
            Ok(rows)
        },
        Err(e) => {
            proof {
                let dealt = deals_from(Seq::<Card>::empty(), 5, true);
                let i = choose|i: int|
                    0 <= i < hands@.len() && distribution_fault(table@, (#[trigger] hands@[i])@)
                        == Some(e);
                assert(dealt[i] == hands@[i]@);
            }
            Err(e)
        },
    }
}

/// The table that gives each key its bucket.
pub fn bucket_table(entries: &Vec<(u64, i32)>) -> (table: HashMap<u64, i32>)
    ensures
        table@ == table_of_buckets(entries@),
        (forall|i: int| 0 <= i < entries@.len() ==> (#[trigger] entries@[i]).1 >= 0)
            ==> buckets_not_negative(table@),
{
    broadcast use vstd::std_specs::hash::group_hash_axioms;

    let mut table: HashMap<u64, i32> = HashMap::new();
    let mut i: usize = 0;
    proof {
        assert(entries@.take(0) =~= Seq::<(u64, i32)>::empty());
    }
    while i < entries.len()
        invariant
            i <= entries@.len(),
            table@ == table_of_buckets(entries@.take(i as int)),
            (forall|j: int| 0 <= j < i ==> (#[trigger] entries@[j]).1 >= 0)
                ==> buckets_not_negative(table@),
        decreases entries@.len() - i,
    {
        proof {
            assert(entries@.take(i + 1).drop_last() =~= entries@.take(i as int));
            assert(entries@.take(i + 1).last() == entries@[i as int]);
        }
        let entry = entries[i];
        table.insert(entry.0, entry.1);
        i = i + 1;
    }
    proof {
        assert(entries@.take(i as int) =~= entries@);
    }
    table
}

/// The buckets of the flop: the canonical hands of the flop, clustered by
/// their equity distributions.
pub fn make_flop_abstraction(
    table: &HandTable,
    buckets: usize,
    seed: u64,
    rounds: usize,
) -> (result: Result<HashMap<u64, i32>, HandError>)
    requires
        0 < buckets <= 0x7FFF_FFFF,
    ensures
        match result {
            Ok(flop) => buckets_not_negative(flop@) && exists|rows: Seq<(u64, Vec<u64>)>, entries: Seq<
                (u64, i32),
            >|
                {
                    let hands = deals_from(Seq::<Card>::empty(), 5, true);
                    &&& flop@ == table_of_buckets(entries)
                    &&& rows.len() == hands.len()
                    &&& #[trigger] entries.len() == #[trigger] rows.len()
                    &&& forall|i: int|
                        0 <= i < hands.len() ==> (#[trigger] rows[i]).0 == hand_key(hands[i])
                            && is_distribution(table@, hands[i], rows[i].1@)
                    &&& forall|i: int|
                        0 <= i < rows.len() ==> (#[trigger] entries[i]).0 == rows[i].0
                            && entries[i].1 == cluster_buckets(
                            data_rows(rows),
                            buckets as nat,
                            seed,
                            rounds as nat,
                        )[i]
                },
            Err(e) => exists|i: int|
                0 <= i < deals_from(Seq::<Card>::empty(), 5, true).len() && distribution_fault(
                    table@,
                    #[trigger] deals_from(Seq::<Card>::empty(), 5, true)[i],
                ) == Some(e),
        },
{
    let rows = match make_flop_equity(table) {
        Ok(rows) => rows,
        Err(e) => {
            return Err(e);
        },
    };
    let entries = cluster(&rows, buckets, seed, rounds);
    let flop = bucket_table(&entries);
    proof {
        assert(entries@.len() == rows@.len());
    }
    Ok(flop)
}

} // verus!
