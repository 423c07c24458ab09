use holdem_abstraction::abstraction::Abstraction;
use holdem_abstraction::buckets::{bucket_table, equity_distributions};
use holdem_abstraction::canonical::canonical_hand;
use holdem_abstraction::card::{cards2str, deck, str2cards, Card};
use holdem_abstraction::cluster::{
    assign_rows, cluster, move_centres, nearest_centre, row_distance, seed_centres,
};
use holdem_abstraction::combos::combinations;
use holdem_abstraction::compact::pack;
use holdem_abstraction::dataset::{buckets_from_json, keyed_entries, table_from_json};
use holdem_abstraction::deal::{canonical_deals, canonical_lines};
use holdem_abstraction::distribution::{
    equity_bin, equity_distribution, histogram, join, opponent_equities, rollout_equity,
    tally_showdowns,
};
use holdem_abstraction::equity::{
    batch_end, cards_left, remaining_deck, river_equity, Equity, EquityTable,
};
use holdem_abstraction::error::HandError;
use holdem_abstraction::strength::HandTable;
use itertools::Itertools;

fn hand(text: &str) -> Vec<Card> {
    str2cards(text).unwrap()
}

fn rank_sum(cards: &[Card]) -> i32 {
    cards.iter().map(|c| c.rank as i32).sum()
}

fn best_rank_sum(cards: &[Card]) -> i32 {
    let mut ranks: Vec<i32> = cards.iter().map(|c| c.rank as i32).collect();
    ranks.sort();
    ranks.iter().rev().take(5).sum()
}

fn cover(table: &mut HandTable, cards: &[Card]) {
    for five in cards.iter().copied().combinations(5) {
        let canonical = canonical_hand(&five, false).unwrap();
        table.insert(&canonical, rank_sum(&five)).unwrap();
    }
}

#[test]
fn combinations_come_in_dictionary_order() {
    assert_eq!(
        combinations(4, 2),
        vec![vec![0, 1], vec![0, 2], vec![0, 3], vec![1, 2], vec![1, 3], vec![2, 3]]
    );
    assert_eq!(
        combinations(5, 3)[..4],
        [vec![0, 1, 2], vec![0, 1, 3], vec![0, 1, 4], vec![0, 2, 3]]
    );
    assert_eq!(combinations(3, 0), vec![Vec::<usize>::new()]);
    assert_eq!(combinations(3, 3), vec![vec![0, 1, 2]]);
    assert_eq!(combinations(3, 4), Vec::<Vec<usize>>::new());
    assert_eq!(combinations(0, 0), vec![Vec::<usize>::new()]);
    assert_eq!(combinations(45, 2).len(), 990);
    assert_eq!(combinations(7, 5).len(), 21);
}

#[test]
fn equity_bins_are_fiftieths() {
    let e = |wins, ties, trials| Equity { wins, ties, trials };
    assert_eq!(equity_bin(&e(0, 0, 10)), 0);
    assert_eq!(equity_bin(&e(5, 0, 10)), 25);
    assert_eq!(equity_bin(&e(0, 1, 10)), 2);
    assert_eq!(equity_bin(&e(0, 1, 100)), 0);
    assert_eq!(equity_bin(&e(0, 3, 100)), 0);
    assert_eq!(equity_bin(&e(0, 4, 100)), 1);
    assert_eq!(equity_bin(&e(1, 0, 3)), 16);
    assert_eq!(equity_bin(&e(989, 0, 990)), 49);
    assert_eq!(equity_bin(&e(990, 0, 990)), 49);
    assert_eq!(equity_bin(&e(0, 0, 0)), 0);
    assert_eq!(equity_bin(&e(u64::MAX / 2, 0, u64::MAX / 2)), 49);
}

#[test]
fn histogram_counts_each_bin() {
    let counts = histogram(&vec![0, 49, 3, 3, 0, 3]);
    assert_eq!(counts.len(), 50);
    assert_eq!(counts[0], 2);
    assert_eq!(counts[3], 3);
    assert_eq!(counts[49], 1);
    assert_eq!(counts.iter().sum::<u64>(), 6);
    assert_eq!(histogram(&vec![]), vec![0u64; 50]);
}

#[test]
fn showdowns_are_tallied() {
    assert_eq!(tally_showdowns(&vec![]), Equity { wins: 0, ties: 0, trials: 0 });
    assert_eq!(
        tally_showdowns(&vec![(3, 2), (2, 3), (2, 2), (5, -1), (0, 0)]),
        Equity { wins: 2, ties: 2, trials: 5 }
    );
}

#[test]
fn join_lays_one_hand_after_another() {
    assert_eq!(join(&hand("AsKs"), &hand("2c3c")), hand("AsKs2c3c"));
    assert_eq!(join(&[], &hand("2c")), hand("2c"));
    assert_eq!(join(&hand("2c"), &[]), hand("2c"));
}

#[test]
fn cards_left_drops_the_dealt_ones() {
    assert_eq!(cards_left(&hand("AsKs2c3c"), &hand("Ks3c9d")), hand("As2c"));
    assert_eq!(cards_left(&hand("AsKs"), &[]), hand("AsKs"));
    assert_eq!(cards_left(&[], &hand("As")), Vec::<Card>::new());
}

#[test]
fn rollout_equity_counts_every_last_card() {
    let mine = hand("AcKd2h9s3c8d");
    let hole = hand("QsQh");
    let rest = cards_left(&remaining_deck(&mine), &hole);
    assert_eq!(rest.len(), 44);
    let mut table = HandTable::new();
    let mut wins = 0;
    let mut ties = 0;
    for last in &rest {
        let a = join(&mine, &[*last]);
        let b = join(&join(&hole, &mine[2..]), &[*last]);
        cover(&mut table, &a);
        cover(&mut table, &b);
        if best_rank_sum(&a) > best_rank_sum(&b) {
            wins += 1;
        } else if best_rank_sum(&a) == best_rank_sum(&b) {
            ties += 1;
        }
    }
    assert_eq!(rollout_equity(&table, &mine, &hole), Ok(Equity { wins, ties, trials: 44 }));
    assert_eq!(
        rollout_equity(&table, &mine, &hand("QsAc")),
        Err(HandError::CanonicalizationInvariantViolation)
    );
    assert_eq!(
        rollout_equity(&table, &mine, &hand("QsQs")),
        Err(HandError::CanonicalizationInvariantViolation)
    );
    assert_eq!(
        rollout_equity(&HandTable::new(), &mine, &hole),
        Err(HandError::DatasetLookupMiss)
    );
}

#[test]
fn equity_distribution_faults() {
    let table = HandTable::new();
    assert_eq!(equity_distribution(&table, &hand("AcKd2h9s3c")), Err(HandError::DatasetLookupMiss));
    assert_eq!(
        equity_distribution(&table, &hand("AcKd2h9sAc")),
        Err(HandError::CanonicalizationInvariantViolation)
    );
    assert_eq!(opponent_equities(&table, &hand("AcKd2h9s3c")), Err(HandError::DatasetLookupMiss));
    assert_eq!(
        opponent_equities(&table, &hand("AcKd2h9s3c3c")),
        Err(HandError::CanonicalizationInvariantViolation)
    );
    assert_eq!(equity_distributions(&table, &vec![]), Ok(vec![]));
    assert_eq!(
        equity_distributions(&table, &vec![hand("AcKd2h9s3c8d")]),
        Err(HandError::DatasetLookupMiss)
    );
}

#[test]
fn batches_end_with_the_hands() {
    assert_eq!(batch_end(10, 4, 0), 4);
    assert_eq!(batch_end(10, 4, 4), 8);
    assert_eq!(batch_end(10, 4, 8), 10);
    assert_eq!(batch_end(10, 4, 10), 10);
    assert_eq!(batch_end(0, 4, 0), 0);
    assert_eq!(batch_end(usize::MAX, usize::MAX, 5), usize::MAX);
}

fn river_setup() -> (HandTable, Vec<Vec<Card>>) {
    let hands = vec![hand("AcAdAhAsKc2d3h"), hand("2c3dAhAsKcKdQh")];
    let mut table = HandTable::new();
    for mine in &hands {
        cover(&mut table, mine);
        for pair in remaining_deck(mine).iter().copied().combinations(2) {
            cover(&mut table, &join(&pair, &mine[2..]));
        }
    }
    (table, hands)
}

#[test]
fn the_equity_table_is_built_in_batches() {
    let (strengths, hands) = river_setup();
    let built = EquityTable::make_equity_table(&strengths, &hands, 1).unwrap();
    assert!(built.contains(&hands[0]));
    assert!(built.contains(&hands[1]));
    assert_eq!(built.first_missing(&hands, 0), 2);
    let first = river_equity(&strengths, &hands[0]).unwrap();
    assert_eq!(first, Equity { wins: 990, ties: 0, trials: 990 });
    assert_eq!(built.lookup(&canonical_hand(&hands[0], true).unwrap()), Err(HandError::DatasetLookupMiss));

    let mut table = EquityTable::new();
    assert_eq!(table.first_missing(&hands, 0), 0);
    assert_eq!(table.insert_batch(&strengths, &hands, 0, 1), Ok(()));
    assert_eq!(table.first_missing(&hands, 0), 1);
    assert_eq!(table.first_missing(&hands, 1), 1);
    assert_eq!(table.insert_batch(&strengths, &hands, 1, 1), Ok(()));
    assert_eq!(table.first_missing(&hands, 0), 1);
    assert_eq!(table.insert_batch(&strengths, &hands, 1, 2), Ok(()));
    assert_eq!(table.first_missing(&hands, 0), 2);
}

#[test]
fn a_canonical_hand_is_found_again_in_the_built_table() {
    let (strengths, hands) = river_setup();
    let canonical: Vec<Vec<Card>> =
        hands.iter().map(|h| canonical_hand(h, true).unwrap()).collect();
    let built = EquityTable::make_equity_table(&strengths, &canonical, 1000).unwrap();
    assert_eq!(built.lookup(&hands[0]), Ok(Equity { wins: 990, ties: 0, trials: 990 }));
    assert_eq!(built.lookup(&hands[1]), river_equity(&strengths, &hands[1]));
}

#[test]
fn building_stops_at_the_first_fault() {
    let (strengths, mut hands) = river_setup();
    hands.insert(1, hand("AcKd2h9s3c8dJh"));
    assert!(matches!(
        EquityTable::make_equity_table(&strengths, &hands, 2),
        Err(HandError::DatasetLookupMiss)
    ));
    let mut table = EquityTable::new();
    assert_eq!(table.insert_batch(&strengths, &hands, 0, 3), Err(HandError::DatasetLookupMiss));
    assert_eq!(table.first_missing(&hands, 0), 1);
    hands[1] = hand("AcKd2h9s3c8dAc");
    assert!(matches!(
        EquityTable::make_equity_table(&strengths, &hands, 2),
        Err(HandError::CanonicalizationInvariantViolation)
    ));
}

#[test]
fn datasets_are_read_from_json() {
    let text = "{\"TcJcQcKcAc\": 7462, \"2c3c4c5c7d\": -3}";
    let table = table_from_json(text, 5).unwrap();
    assert_eq!(table.len(), 2);
    assert_eq!(table.get(&pack(&hand("TcJcQcKcAc")).unwrap()), Some(&7462));
    assert_eq!(table.get(&pack(&hand("2c3c4c5c7d")).unwrap()), Some(&-3));
    assert_eq!(table_from_json("{}", 5), Ok(std::collections::HashMap::new()));
    let strengths = HandTable::from_json(text).unwrap();
    assert_eq!(strengths.hand_strength(&hand("AsKsQsJsTs")), Ok(7462));
    assert_eq!(strengths.hand_strength(&hand("2h3h4h5h7s")), Ok(-3));
    let turn = buckets_from_json("{\"KdAd2c3c4h9s\": 12}", 6).unwrap();
    let mut a = Abstraction::new();
    a.set_turn(turn);
    assert_eq!(a.abstract_id(&hand("AsKs2c9d3c4h")), Ok(12));
}

#[test]
fn malformed_datasets_are_parse_errors() {
    for bad in [
        "",
        "{",
        "[]",
        "7",
        "{\"TcJcQcKcAc\": 1.5}",
        "{\"TcJcQcKcAc\": \"1\"}",
        "{\"TcJcQcKcAc\": 99999999999}",
        "{\"TcJcQcKc\": 1}",
        "{\"TcJcQcKcAcAd\": 1}",
        "{\"TcJcQcKcAx\": 1}",
        "{\"\": 1}",
        "{\"TcJcQcKcAc\": 1, \"x\": 2}",
    ] {
        assert_eq!(table_from_json(bad, 5), Err(HandError::ParseError), "{:?}", bad);
        assert!(matches!(HandTable::from_json(bad), Err(HandError::ParseError)), "{:?}", bad);
    }
    assert_eq!(table_from_json("{\"TcJcQcKcAc\": 1}", 6), Err(HandError::ParseError));
}

#[test]
fn bucket_datasets_hold_no_negative_bucket() {
    let text = "{\"KdAd2c3c9h\": 0, \"2c3c4c5c7d\": 41}";
    let table = buckets_from_json(text, 5).unwrap();
    assert_eq!(table.len(), 2);
    assert_eq!(table.get(&pack(&hand("KdAd2c3c9h")).unwrap()), Some(&0));
    assert_eq!(table.get(&pack(&hand("2c3c4c5c7d")).unwrap()), Some(&41));
    assert_eq!(buckets_from_json("{}", 6), Ok(std::collections::HashMap::new()));
    for bad in [
        "{\"KdAd2c3c9h\": -1}",
        "{\"KdAd2c3c9h\": 3, \"2c3c4c5c7d\": -2147483648}",
        "{\"KdAd2c3c9h\": 1.0}",
        "{\"KdAd2c3c\": 1}",
        "[1]",
        "",
    ] {
        assert_eq!(buckets_from_json(bad, 5), Err(HandError::ParseError), "{:?}", bad);
    }
    // the same text is a dataset of numbers
    assert!(table_from_json("{\"KdAd2c3c9h\": -1}", 5).is_ok());
    let mut a = Abstraction::new();
    a.set_flop(table);
    assert_eq!(a.abstract_id(&hand("AsKs2c9d3c")), Ok(0));
}

#[test]
fn entries_are_keyed_by_their_hands() {
    let entries = vec![("AsKs".to_string(), 1), ("2c3d".to_string(), 2), ("AsKs".to_string(), 3)];
    let table = keyed_entries(&entries, 2).unwrap();
    assert_eq!(table.len(), 2);
    assert_eq!(table.get(&pack(&hand("AsKs")).unwrap()), Some(&3));
    assert_eq!(table.get(&4610), Some(&2));
    assert_eq!(keyed_entries(&entries, 3), Err(HandError::ParseError));
    let table = bucket_table(&vec![(5, 1), (6, 2), (5, 3)]);
    assert_eq!(table.len(), 2);
    assert_eq!(table.get(&5), Some(&3));
    assert_eq!(table.get(&6), Some(&2));
}

#[test]
fn canonical_lines_write_one_hand_a_line() {
    assert_eq!(canonical_lines(0, false), "\n");
    assert_eq!(canonical_lines(1, false), "2c\n3c\n4c\n5c\n6c\n7c\n8c\n9c\nTc\nJc\nQc\nKc\nAc\n");
    let two = canonical_lines(2, true);
    assert_eq!(two.lines().count(), 169);
    assert!(two.starts_with("2c2d\n2c3c\n2c3d\n2c4c\n"));
    assert!(two.ends_with("AcAd\n"));
}

#[test]
fn canonical_deals_find_the_classes_of_all_deals() {
    let cards = hand("2c2d2h3c3d4s");
    let keys = canonical_deals(&cards, 1);
    let mut expected = std::collections::HashSet::new();
    let mut deals = 0;
    for hole in cards.iter().copied().combinations(2) {
        let rest: Vec<Card> = cards.iter().copied().filter(|c| !hole.contains(c)).collect();
        for board in rest.iter().copied().combinations(1) {
            let dealt = join(&hole, &board);
            expected.insert(pack(&canonical_hand(&dealt, true).unwrap()).unwrap());
            deals += 1;
        }
    }
    assert_eq!(deals, 60);
    assert_eq!(keys, expected);
    assert!(keys.len() < 60);
    assert!(keys.contains(&pack(&hand("2c2d2h")).unwrap()));
    assert!(!keys.contains(&pack(&hand("2d2c2h")).unwrap()));
    let all = canonical_deals(&deck()[..8], 0);
    assert_eq!(all.len(), 4);
    assert!(canonical_deals(&hand("2c"), 3).is_empty());
}

#[test]
fn distances_are_summed_differences() {
    assert_eq!(row_distance(&vec![1, 5, 9], &vec![4, 5, 2]), 10);
    assert_eq!(row_distance(&vec![1, 5], &vec![4, 5, 2]), 5);
    assert_eq!(row_distance(&vec![], &vec![]), 0);
    assert_eq!(row_distance(&vec![u64::MAX, u64::MAX], &vec![0, 0]), 2 * (u64::MAX as u128));
    let centres = vec![vec![0, 0], vec![10, 10], vec![0, 1]];
    assert_eq!(nearest_centre(&centres, &vec![0, 0]), 0);
    assert_eq!(nearest_centre(&centres, &vec![9, 9]), 1);
    assert_eq!(nearest_centre(&centres, &vec![0, 2]), 2);
    assert_eq!(nearest_centre(&centres, &vec![5, 5]), 2);
    assert_eq!(nearest_centre(&centres, &vec![5, 6]), 1);
    assert_eq!(nearest_centre(&vec![vec![1], vec![1]], &vec![7]), 0);
}

#[test]
fn clustering_is_k_means_from_fixed_seeds() {
    let data: Vec<(u64, Vec<u64>)> = vec![
        (11, vec![0, 0]),
        (12, vec![0, 2]),
        (13, vec![10, 10]),
        (14, vec![10, 12]),
        (15, vec![1, 1]),
    ];
    assert_eq!(seed_centres(&data, 2, 0), vec![vec![0, 0], vec![10, 10]]);
    assert_eq!(seed_centres(&data, 2, 6), vec![vec![0, 2], vec![10, 12]]);
    assert_eq!(seed_centres(&data, 3, 4), vec![vec![1, 1], vec![0, 0], vec![0, 2]]);
    assert_eq!(seed_centres(&data, 7, 0).len(), 7);
    let centres = seed_centres(&data, 2, 0);
    assert_eq!(assign_rows(&centres, &data), vec![0, 0, 1, 1, 0]);
    assert_eq!(move_centres(&data, &centres), vec![vec![0, 1], vec![10, 11]]);
    for rounds in [0, 1, 5] {
        assert_eq!(
            cluster(&data, 2, 0, rounds),
            vec![(11, 0), (12, 0), (13, 1), (14, 1), (15, 0)]
        );
    }
    assert_eq!(cluster(&data, 1, 9, 3), vec![(11, 0), (12, 0), (13, 0), (14, 0), (15, 0)]);
    assert_eq!(cluster(&vec![], 4, 0, 2), vec![]);
    // a centre without rows stays where it is
    let twins: Vec<(u64, Vec<u64>)> = vec![(1, vec![3]), (2, vec![3])];
    assert_eq!(cluster(&twins, 2, 0, 4), vec![(1, 0), (2, 0)]);
    for (key, bucket) in cluster(&data, 3, 1, 2) {
        assert!(key >= 11 && (0..3).contains(&bucket));
    }
}

#[test]
fn hands_that_are_alike_share_a_bucket() {
    let mut data: Vec<(u64, Vec<u64>)> = Vec::new();
    for i in 0..22u64 {
        let mut row = vec![0u64; 50];
        row[(i % 2) as usize * 40] = 1000;
        row[10 + (i % 3) as usize] += 1;
        data.push((i, row));
    }
    let buckets = cluster(&data, 2, 0, 3);
    for (i, (key, bucket)) in buckets.iter().enumerate() {
        assert_eq!(*key, i as u64);
        assert_eq!(*bucket, (i % 2) as i32);
    }
    assert_eq!(cards2str(&hand("AsKs")), "AsKs");
}
