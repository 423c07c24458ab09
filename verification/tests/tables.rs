use holdem_abstraction::abstraction::{load_flop_abstraction, load_turn_abstraction, Abstraction};
use holdem_abstraction::canonical::canonical_hand;
use holdem_abstraction::card::{deck, str2cards, Card};
use holdem_abstraction::combos::pick;
use holdem_abstraction::compact::pack;
use holdem_abstraction::equity::{
    holds, remaining_deck, river_equity, tally_outcomes, Equity, EquityTable,
};
use holdem_abstraction::error::HandError;
use holdem_abstraction::strength::{load_hand_strengths, HandTable};
use itertools::Itertools;

fn hand(text: &str) -> Vec<Card> {
    str2cards(text).unwrap()
}

/// A stand-in for a ranking: the sum of the ranks, which is the same for all
/// hands of a class.
fn rank_sum(cards: &[Card]) -> i32 {
    cards.iter().map(|c| c.rank as i32).sum()
}

/// The greatest rank sum of any five of the cards.
fn best_rank_sum(cards: &[Card]) -> i32 {
    let mut ranks: Vec<i32> = cards.iter().map(|c| c.rank as i32).collect();
    ranks.sort();
    ranks.iter().rev().take(5).sum()
}

fn cover(table: &mut HandTable, cards: &[Card]) {
    for five in cards.iter().copied().combinations(5) {
        let canonical = canonical_hand(&five, false).unwrap();
        table.insert(&canonical, rank_sum(&five)).unwrap();
    }
}

/// A table that covers the hand and the hand of every opponent.
fn showdown_table(mine: &[Card]) -> HandTable {
    let mut table = HandTable::new();
    cover(&mut table, mine);
    let rest = remaining_deck(mine);
    for pair in rest.iter().copied().combinations(2) {
        let mut theirs = pair.clone();
        theirs.extend_from_slice(&mine[2..]);
        cover(&mut table, &theirs);
    }
    table
}

#[test]
fn pick_takes_the_cards_at_the_positions() {
    let h = hand("2c3d4h5s6c");
    assert_eq!(pick(&h, &vec![0, 2, 4]), hand("2c4h6c"));
    assert_eq!(pick(&h, &vec![]), Vec::<Card>::new());
    assert_eq!(pick(&h, &vec![4, 4]), hand("6c6c"));
}

#[test]
fn a_royal_flush_is_stronger_than_seven_high() {
    let mut table = HandTable::new();
    table.insert(&canonical_hand(&hand("AcKcQcJcTc"), false).unwrap(), 7462).unwrap();
    table.insert(&canonical_hand(&hand("2c3c4c5c7d"), false).unwrap(), 1).unwrap();
    let royal = table.hand_strength(&hand("AcKcQcJcTc")).unwrap();
    let low = table.hand_strength(&hand("2c3c4c5c7d")).unwrap();
    assert_eq!(royal, 7462);
    assert_eq!(low, 1);
    assert!(royal > low);
    // the same classes under other suit names and in another order
    assert_eq!(table.hand_strength(&hand("ThJhQhKhAh")), Ok(7462));
    assert_eq!(table.hand_strength(&hand("7s5h4h3h2h")), Ok(1));
}

#[test]
fn hand_strength_is_the_greatest_of_all_fives() {
    let seven = hand("AcKd2h9s3c8dJh");
    let mut table = HandTable::new();
    cover(&mut table, &seven);
    assert_eq!(table.hand_strength(&seven), Ok(14 + 13 + 11 + 9 + 8));
    assert_eq!(table.hand_strength(&seven[..6]), Ok(14 + 13 + 9 + 8 + 3));
    assert_eq!(table.hand_strength(&seven[..5]), Ok(14 + 13 + 2 + 9 + 3));
}

#[test]
fn hand_strength_may_be_negative() {
    let five = hand("2c3c4c5c7d");
    let mut table = HandTable::new();
    table.insert(&canonical_hand(&five, false).unwrap(), -5).unwrap();
    assert_eq!(table.hand_strength(&five), Ok(-5));
}

#[test]
fn a_missing_class_is_a_lookup_miss() {
    let seven = hand("AcKd2h9s3c8dJh");
    let mut table = HandTable::new();
    assert_eq!(table.hand_strength(&seven), Err(HandError::DatasetLookupMiss));
    cover(&mut table, &seven[..6]);
    assert_eq!(table.hand_strength(&seven), Err(HandError::DatasetLookupMiss));
    assert!(table.hand_strength(&seven[..6]).is_ok());
}

#[test]
fn a_hand_with_a_card_twice_has_no_strength() {
    let mut table = HandTable::new();
    cover(&mut table, &hand("AcKd2h9s3c8dJh"));
    assert_eq!(
        table.hand_strength(&hand("AcKd2h9s3cAc")),
        Err(HandError::CanonicalizationInvariantViolation)
    );
}

#[test]
fn tables_keep_what_is_put_under_a_hand() {
    let mut table = HandTable::new();
    let five = hand("2c3c4c5c7d");
    assert_eq!(table.get(pack(&five).unwrap()), None);
    assert_eq!(table.insert(&five, 3), Ok(()));
    assert_eq!(table.get(pack(&five).unwrap()), Some(3));
    assert_eq!(table.insert(&five, 4), Ok(()));
    assert_eq!(table.get(pack(&five).unwrap()), Some(4));
    assert_eq!(table.insert(&deck()[..9], 4), Err(HandError::CapacityExceeded));
}

#[test]
fn the_strength_dataset_is_read_entry_by_entry() {
    let entries = vec![
        ("TcJcQcKcAc".to_string(), 7462),
        ("2c3c4c5c7d".to_string(), 1),
        ("2c3c4c5c7d".to_string(), 2),
    ];
    let table = load_hand_strengths(&entries).unwrap();
    assert_eq!(table.hand_strength(&hand("AsKsQsJsTs")), Ok(7462));
    assert_eq!(table.hand_strength(&hand("2d3d4d5d7h")), Ok(2));
    assert_eq!(table.hand_strength(&hand("2d3d4d5d8h")), Err(HandError::DatasetLookupMiss));
    for bad in ["TcJcQcKc", "TcJcQcKcAcAd", "TcJcQcKcAx", "TcJcQcKcA", ""] {
        let entries = vec![("2c3c4c5c7d".to_string(), 1), (bad.to_string(), 5)];
        assert!(matches!(load_hand_strengths(&entries), Err(HandError::ParseError)), "{:?}", bad);
    }
    assert!(load_hand_strengths(&vec![]).is_ok());
}

#[test]
fn tally_counts_wins_and_ties() {
    assert_eq!(tally_outcomes(5, &vec![]), Equity { wins: 0, ties: 0, trials: 0 });
    assert_eq!(
        tally_outcomes(5, &vec![1, 5, 9, 4, 5, 5]),
        Equity { wins: 2, ties: 3, trials: 6 }
    );
    assert_eq!(tally_outcomes(5, &vec![1, 2, 3]), Equity { wins: 3, ties: 0, trials: 3 });
    assert_eq!(tally_outcomes(-1, &vec![0, 0]), Equity { wins: 0, ties: 0, trials: 2 });
}

#[test]
fn the_remaining_deck_lacks_the_dealt_cards() {
    let dealt = hand("AcKd2h9s3c8dJh");
    let rest = remaining_deck(&dealt);
    assert_eq!(rest.len(), 45);
    for c in deck() {
        assert_eq!(rest.contains(&c), !dealt.contains(&c));
        assert_eq!(holds(&dealt, &c), dealt.contains(&c));
    }
    assert_eq!(rest[0], Card { rank: 2, suit: 0 });
    assert_eq!(remaining_deck(&[]), deck());
}

#[test]
fn river_equity_counts_every_opponent_once() {
    let mine = hand("AcKd2h9s3c8dJh");
    let table = showdown_table(&mine);
    let equity = river_equity(&table, &mine).unwrap();
    let my_strength = best_rank_sum(&mine);
    let rest = remaining_deck(&mine);
    let mut wins = 0;
    let mut ties = 0;
    for pair in rest.iter().copied().combinations(2) {
        let mut theirs = pair.clone();
        theirs.extend_from_slice(&mine[2..]);
        let s = best_rank_sum(&theirs);
        if my_strength > s {
            wins += 1;
        } else if my_strength == s {
            ties += 1;
        }
    }
    assert_eq!(equity, Equity { wins, ties, trials: 990 });
    assert!(wins > 0 && ties > 0 && wins + ties < 990);
    assert!(equity.wins + equity.ties <= equity.trials);
}

#[test]
fn a_hand_that_beats_every_opponent_has_equity_one() {
    let mine = hand("AcAdAhAsKc2d3h");
    let table = showdown_table(&mine);
    assert_eq!(river_equity(&table, &mine), Ok(Equity { wins: 990, ties: 0, trials: 990 }));
}

#[test]
fn a_hand_that_only_plays_the_board_ties_or_loses() {
    let mine = hand("2c3dAhAsKcKdQh");
    let table = showdown_table(&mine);
    let equity = river_equity(&table, &mine).unwrap();
    assert_eq!(equity.wins, 0);
    assert_eq!(equity.trials, 990);
    assert!(equity.ties > 0 && equity.ties < 990);
}

#[test]
fn river_equity_faults() {
    let mine = hand("AcKd2h9s3c8dJh");
    let mut table = HandTable::new();
    assert_eq!(river_equity(&table, &mine), Err(HandError::DatasetLookupMiss));
    cover(&mut table, &mine);
    assert_eq!(river_equity(&table, &mine), Err(HandError::DatasetLookupMiss));
    assert_eq!(
        river_equity(&table, &hand("AcKd2h9s3c8dAc")),
        Err(HandError::CanonicalizationInvariantViolation)
    );
}

#[test]
fn the_equity_table_answers_for_the_whole_class() {
    let mut table = EquityTable::new();
    let stored = hand("KhAh2c3c8d9dJs");
    let equity = Equity { wins: 600, ties: 30, trials: 990 };
    assert_eq!(table.insert(&stored, equity), Ok(()));
    assert_eq!(table.lookup(&hand("AsKs2c9d3c8dJh")), Ok(equity));
    assert_eq!(table.lookup(&hand("KhAhJc3d2d9s8s")), Ok(equity));
    assert_eq!(table.lookup(&hand("2cKsAs9d3c8dJh")), Err(HandError::DatasetLookupMiss));
    assert_eq!(
        table.lookup(&hand("AsKs2c9d3c8dAs")),
        Err(HandError::CanonicalizationInvariantViolation)
    );
    assert_eq!(table.insert(&deck()[..9], equity), Err(HandError::CapacityExceeded));
}

#[test]
fn preflop_buckets_go_by_ranks_and_suitedness() {
    let a = Abstraction::new();
    let id = |t: &str| a.abstract_id(&hand(t)).unwrap();
    assert_eq!(id("AhAd"), 2828);
    assert_eq!(id("AhAd"), id("AcAs"));
    assert_ne!(id("AhAd"), id("AhKh"));
    assert_eq!(id("AhKh"), 2629);
    assert_eq!(id("KhAh"), 2629);
    assert_eq!(id("KsAd"), 2628);
    assert_eq!(id("2c3d"), 406);
    assert_eq!(id("3s2s"), 407);
    assert_eq!(a.preflop_bin(&hand("7c2d")), 2 * (200 + 7));
}

#[test]
fn preflop_buckets_tell_the_169_classes_apart() {
    let a = Abstraction::new();
    let all = deck();
    let mut ids = Vec::new();
    for x in &all {
        for y in &all {
            if x != y {
                ids.push(a.abstract_id(&[*x, *y]).unwrap());
            }
        }
    }
    ids.sort();
    ids.dedup();
    assert_eq!(ids.len(), 169);
}

#[test]
fn buckets_with_a_board_are_looked_up_by_class() {
    let mut a = Abstraction::new();
    assert_eq!(a.abstract_id(&hand("AsKs2c9d3c")), Err(HandError::DatasetLookupMiss));
    a.insert(&canonical_hand(&hand("AsKs2c9d3c"), true).unwrap(), 17);
    a.insert(&canonical_hand(&hand("AsKs2c9d3c8d"), true).unwrap(), 18);
    a.insert(&canonical_hand(&hand("AsKs2c9d3c8dJh"), true).unwrap(), 19);
    assert_eq!(a.abstract_id(&hand("AsKs2c9d3c")), Ok(17));
    assert_eq!(a.abstract_id(&hand("KhAh3d2d9s")), Ok(17));
    assert_eq!(a.flop_bin(&hand("KhAh3d2d9s")), Ok(17));
    assert_eq!(a.abstract_id(&hand("AsKs2c9d3c8d")), Ok(18));
    assert_eq!(a.turn_bin(&hand("AsKs2c9d3c8d")), Ok(18));
    assert_eq!(a.abstract_id(&hand("AsKs2c9d3c8dJh")), Ok(19));
    assert_eq!(a.river_bin(&hand("AsKs2c9d3c8dJh")), Ok(19));
    assert_eq!(a.abstract_id(&hand("2cKsAs9d3c")), Err(HandError::DatasetLookupMiss));
    assert_eq!(a.abstract_id(&hand("AsKs2c9d3c8dJd")), Err(HandError::DatasetLookupMiss));
    assert_eq!(
        a.abstract_id(&hand("AsKs2c9dAs")),
        Err(HandError::CanonicalizationInvariantViolation)
    );
}

#[test]
fn new_tables_are_empty() {
    assert!(load_flop_abstraction().is_empty());
    assert!(load_turn_abstraction().is_empty());
    let a = Abstraction::new();
    assert_eq!(a.abstract_id(&hand("AsKs2c9d3c8dJh")), Err(HandError::DatasetLookupMiss));
}
