use holdem_abstraction::canonical::{
    canonical_hand, comes_before, contains_duplicates, hole_ranks_by_suit, is_canonical,
    key_comes_before, label_suits, lex_less, ranks_by_suit, ranks_of_suit, sorted_correctly,
};
use holdem_abstraction::card::{cards2str, deck, str2cards, Card};
use holdem_abstraction::deal::deal_canonical;
use holdem_abstraction::error::HandError;
use holdem_abstraction::order::{sort_canonical, suit_first_greater_than};

fn hand(text: &str) -> Vec<Card> {
    str2cards(text).unwrap()
}

fn canon(text: &str, streets: bool) -> String {
    cards2str(&canonical_hand(&hand(text), streets).unwrap())
}

fn renamed(cards: &[Card], names: [u8; 4]) -> Vec<Card> {
    cards.iter().map(|c| Card { rank: c.rank, suit: names[c.suit as usize] }).collect()
}

const RENAMINGS: [[u8; 4]; 24] = [
    [0, 1, 2, 3], [0, 1, 3, 2], [0, 2, 1, 3], [0, 2, 3, 1], [0, 3, 1, 2], [0, 3, 2, 1],
    [1, 0, 2, 3], [1, 0, 3, 2], [1, 2, 0, 3], [1, 2, 3, 0], [1, 3, 0, 2], [1, 3, 2, 0],
    [2, 0, 1, 3], [2, 0, 3, 1], [2, 1, 0, 3], [2, 1, 3, 0], [2, 3, 0, 1], [2, 3, 1, 0],
    [3, 0, 1, 2], [3, 0, 2, 1], [3, 1, 0, 2], [3, 1, 2, 0], [3, 2, 0, 1], [3, 2, 1, 0],
];

/// A few hundred hands of each street, spread over the deck.
fn sample_hands() -> Vec<Vec<Card>> {
    let all = deck();
    let mut hands = Vec::new();
    let mut state: u64 = 12345;
    for n in [2usize, 5, 6, 7] {
        for _ in 0..150 {
            let mut pool = all.clone();
            let mut h = Vec::new();
            for _ in 0..n {
                state = state.wrapping_mul(6364136223846793005).wrapping_add(1442695040888963407);
                let i = ((state >> 33) as usize) % pool.len();
                h.push(pool.remove(i));
            }
            hands.push(h);
        }
    }
    hands
}

#[test]
fn sort_canonical_orders_by_suit_then_rank() {
    assert_eq!(cards2str(&sort_canonical(&hand("AsKs2c9d3c"), false)), "2c3c9dKsAs");
    assert_eq!(cards2str(&sort_canonical(&hand("AsKs2c9d3c"), true)), "KsAs2c3c9d");
    assert_eq!(cards2str(&sort_canonical(&hand("AsKc"), true)), "KcAs");
    assert_eq!(cards2str(&sort_canonical(&hand("As"), true)), "As");
    assert_eq!(cards2str(&sort_canonical(&[], true)), "");
    assert_eq!(cards2str(&sort_canonical(&hand("2c2c2c"), false)), "2c2c2c");
}

#[test]
fn suit_first_greater_than_compares_suit_before_rank() {
    let c = |t: &str| Card::new(t).unwrap();
    assert!(suit_first_greater_than(&c("2d"), &c("Ac")));
    assert!(!suit_first_greater_than(&c("Ac"), &c("2d")));
    assert!(suit_first_greater_than(&c("3c"), &c("2c")));
    assert!(!suit_first_greater_than(&c("2c"), &c("3c")));
    assert!(!suit_first_greater_than(&c("2c"), &c("2c")));
}

#[test]
fn rank_lists_follow_the_hand() {
    let h = hand("AhKd2h9c3h");
    assert_eq!(ranks_of_suit(&h, 2), vec![14, 2, 3]);
    assert_eq!(ranks_of_suit(&h, 3), Vec::<u8>::new());
    assert_eq!(ranks_by_suit(&h), vec![vec![9], vec![13], vec![14, 2, 3], vec![]]);
}

#[test]
fn rank_lists_compare_as_in_a_dictionary() {
    assert!(lex_less(&vec![1, 5], &vec![2, 4]));
    assert!(!lex_less(&vec![2, 4], &vec![1, 5]));
    assert!(!lex_less(&vec![2, 4], &vec![2, 4]));
    assert!(lex_less(&vec![2], &vec![2, 4]));
    assert!(lex_less(&vec![], &vec![2]));
    assert!(!lex_less(&vec![], &vec![]));
    assert!(comes_before(&vec![2, 3], &vec![14]));
    assert!(!comes_before(&vec![14], &vec![2, 3]));
    assert!(comes_before(&vec![2, 9], &vec![3, 4]));
    assert!(!comes_before(&vec![3, 4], &vec![3, 4]));
}

#[test]
fn labels_go_by_length_then_dictionary_then_hole_ranks_then_old_name() {
    let none: Vec<Vec<u8>> = vec![vec![], vec![], vec![], vec![]];
    assert_eq!(
        label_suits(&vec![vec![9], vec![13], vec![2, 3, 14], vec![]], &none),
        vec![1, 2, 0, 3]
    );
    assert_eq!(label_suits(&none, &none), vec![0, 1, 2, 3]);
    assert_eq!(label_suits(&vec![vec![5], vec![5], vec![4], vec![5]], &none), vec![1, 2, 0, 3]);
    assert_eq!(
        label_suits(&vec![vec![], vec![2], vec![2, 3], vec![2, 3, 4]], &none),
        vec![3, 2, 1, 0]
    );
    // clubs and diamonds hold the same ranks; diamonds hold a hole card
    let lists = vec![vec![5, 7], vec![5, 7], vec![9], vec![]];
    assert_eq!(
        label_suits(&lists, &vec![vec![], vec![5], vec![9], vec![]]),
        vec![1, 0, 2, 3]
    );
    assert_eq!(
        label_suits(&lists, &vec![vec![5], vec![], vec![9], vec![]]),
        vec![0, 1, 2, 3]
    );
    // of two hole cards of one rank list the lower rank goes first
    let lists = vec![vec![7, 3], vec![3, 7], vec![], vec![]];
    assert_eq!(
        label_suits(&vec![vec![3, 7], vec![3, 7], vec![], vec![]], &vec![vec![7], vec![3], vec![], vec![]]),
        vec![1, 0, 2, 3]
    );
    assert_eq!(label_suits(&lists, &none), vec![1, 0, 2, 3]);
}

#[test]
fn keys_compare_by_all_ranks_then_hole_ranks() {
    assert!(key_comes_before(&vec![2, 3], &vec![], &vec![14], &vec![14]));
    assert!(!key_comes_before(&vec![14], &vec![14], &vec![2, 3], &vec![]));
    assert!(key_comes_before(&vec![5, 7], &vec![5], &vec![5, 7], &vec![]));
    assert!(!key_comes_before(&vec![5, 7], &vec![], &vec![5, 7], &vec![5]));
    assert!(key_comes_before(&vec![5, 7], &vec![5], &vec![5, 7], &vec![7]));
    assert!(!key_comes_before(&vec![5, 7], &vec![5], &vec![5, 7], &vec![5]));
}

#[test]
fn hole_ranks_are_those_of_the_first_two_cards_with_a_board() {
    let h = hand("5c9h7c5d7d");
    assert_eq!(hole_ranks_by_suit(&h, true), vec![vec![5], vec![], vec![9], vec![]]);
    let none: Vec<Vec<u8>> = vec![vec![], vec![], vec![], vec![]];
    assert_eq!(hole_ranks_by_suit(&h, false), none);
    assert_eq!(hole_ranks_by_suit(&h[..2], true), none);
    assert_eq!(hole_ranks_by_suit(&[], true), none);
}

#[test]
fn canonical_hand_examples() {
    assert_eq!(canon("AsKs", false), "KcAc");
    assert_eq!(canon("AsKh", false), "KcAd");
    assert_eq!(canon("AhAd", false), "AcAd");
    assert_eq!(canon("AsKs2c9d3c", false), "2c3cKdAd9h");
    assert_eq!(canon("AsKs2c9d3c", true), "KdAd2c3c9h");
    assert_eq!(canon("2h3h4h5h6h", false), "2c3c4c5c6c");
    assert_eq!(canon("", false), "");
    assert_eq!(canon("7s", true), "7c");
}

#[test]
fn canonical_hand_is_idempotent() {
    for h in sample_hands() {
        for streets in [false, true] {
            let once = canonical_hand(&h, streets).unwrap();
            assert_eq!(canonical_hand(&once, streets), Ok(once.clone()));
        }
    }
}

#[test]
fn canonical_hand_is_canonical() {
    for h in sample_hands() {
        for streets in [false, true] {
            let c = canonical_hand(&h, streets).unwrap();
            assert!(is_canonical(&c, streets));
            assert_eq!(c.len(), h.len());
        }
    }
}

#[test]
fn canonical_hand_ignores_suit_names_where_streets_are_not_told_apart() {
    for h in sample_hands() {
        let c = canonical_hand(&h, false).unwrap();
        for names in RENAMINGS {
            assert_eq!(canonical_hand(&renamed(&h, names), false), Ok(c.clone()));
        }
    }
}

#[test]
fn canonical_hand_ignores_suit_names_where_streets_are_told_apart() {
    for h in sample_hands() {
        let c = canonical_hand(&h, true).unwrap();
        for names in RENAMINGS {
            assert_eq!(canonical_hand(&renamed(&h, names), true), Ok(c.clone()));
        }
    }
    let h = hand("AsKs2c9d3c8dJh");
    assert_eq!(cards2str(&canonical_hand(&h, true).unwrap()), "KhAh2c3c8d9dJs");
}

#[test]
fn suits_with_the_same_ranks_go_by_their_hole_cards() {
    // Clubs hold 5 (hole) and 7 (board), diamonds hold 5 and 7 on the board:
    // the suit with the hole card is labelled first, whatever its name.
    let h = hand("5c9h7c5d7d");
    for names in RENAMINGS {
        assert_eq!(cards2str(&canonical_hand(&renamed(&h, names), true).unwrap()), "5c9h7c5d7d");
    }
    assert_eq!(canon("5d9h5c7c7d", true), "5c9h7c5d7d");
    assert_eq!(canon("2c5h3c2d3d", true), "2c5h3c2d3d");
    assert_eq!(canon("2d5h3d2c3c", true), "2c5h3c2d3d");
    assert_eq!(
        canonical_hand(&hand("2c5h3c2d3d"), true),
        canonical_hand(&hand("2d5h3d2c3c"), true)
    );
    // three suits with the same ranks, two of them alike among the hole cards
    let h = hand("5c5d7c7d5h7h");
    let c = canonical_hand(&h, true).unwrap();
    assert_eq!(cards2str(&c), "5c5d7c7d5h7h");
    for names in RENAMINGS {
        assert_eq!(canonical_hand(&renamed(&h, names), true), Ok(c.clone()));
    }
    // the other way to write the class meets the four rules, but is not the form
    assert!(is_canonical(&hand("5d9h5c7c7d"), true));
    assert!(is_canonical(&hand("5c9h7c5d7d"), true));
    assert_eq!(canonical_hand(&hand("5d9h5c7c7d"), false), canonical_hand(&h5(), false));
}

fn h5() -> Vec<Card> {
    hand("5c9h7c5d7d")
}

#[test]
fn canonical_hand_ignores_card_order_where_streets_are_not_told_apart() {
    for h in sample_hands() {
        let c = canonical_hand(&h, false).unwrap();
        let mut r = h.clone();
        r.reverse();
        assert_eq!(canonical_hand(&r, false), Ok(c.clone()));
        r.rotate_left(1);
        assert_eq!(canonical_hand(&r, false), Ok(c.clone()));
    }
}

#[test]
fn canonical_hand_with_streets_ignores_order_within_a_street_only() {
    assert_eq!(canon("AsKs2c9d3c", true), canon("KsAs3c2c9d", true));
    assert_ne!(canon("AsKs2c9d3c", true), canon("2c9dAsKs3c", true));
    assert_ne!(canon("AsAd2s", true), canon("2sAdAs", true));
}

#[test]
fn a_card_held_twice_is_a_fault() {
    for streets in [false, true] {
        assert_eq!(
            canonical_hand(&hand("AsAs"), streets),
            Err(HandError::CanonicalizationInvariantViolation)
        );
        assert_eq!(
            canonical_hand(&hand("AsKs2c9dAs"), streets),
            Err(HandError::CanonicalizationInvariantViolation)
        );
    }
    assert!(contains_duplicates(&hand("AsKs2c9dAs")));
    assert!(!contains_duplicates(&hand("AsKs2c9dAh")));
    assert!(!contains_duplicates(&[]));
}

#[test]
fn is_canonical_checks_each_rule() {
    assert!(is_canonical(&hand("2c3cKdAd9h"), false));
    assert!(is_canonical(&[], false));
    assert!(is_canonical(&[], true));
    // out of order
    assert!(!is_canonical(&hand("3c2cKdAd9h"), false));
    assert!(!is_canonical(&hand("AcKc"), true));
    assert!(!is_canonical(&hand("KcAc3d2d9h"), true));
    // the hole cards may follow the board in suit order where streets are told apart
    assert!(is_canonical(&hand("KcAd2c"), true));
    assert!(!is_canonical(&hand("KcAd2c"), false));
    // a later suit with more cards
    assert!(!is_canonical(&hand("2c3d4d"), false));
    assert!(!is_canonical(&hand("2d"), false));
    // equal lengths, later suit first in the dictionary
    assert!(!is_canonical(&hand("3c2d"), false));
    assert!(is_canonical(&hand("2c3d"), false));
    assert!(is_canonical(&hand("2c2d"), false));
    // a card twice
    assert!(!is_canonical(&hand("2c2c"), false));
    assert!(!is_canonical(&hand("2c2c"), true));
}

#[test]
fn sorted_correctly_follows_the_mode() {
    assert!(sorted_correctly(&hand("KsAs2c3c9d"), true));
    assert!(!sorted_correctly(&hand("KsAs2c3c9d"), false));
    assert!(!sorted_correctly(&hand("AsKs2c3c9d"), true));
    assert!(!sorted_correctly(&hand("KsAs3c2c9d"), true));
    assert!(sorted_correctly(&hand("2c3c9dKsAs"), false));
    assert!(sorted_correctly(&hand("2c2c"), false));
}

#[test]
fn there_are_169_canonical_hands_of_two_cards() {
    let hands = deal_canonical(2, false);
    assert_eq!(hands.len(), 169);
    let pairs = hands.iter().filter(|h| h[0].rank == h[1].rank).count();
    let suited = hands.iter().filter(|h| h[0].suit == h[1].suit).count();
    let offsuit = hands
        .iter()
        .filter(|h| h[0].rank != h[1].rank && h[0].suit != h[1].suit)
        .count();
    assert_eq!((pairs, suited, offsuit), (13, 78, 78));
    for h in &hands {
        assert!(is_canonical(h, false));
    }
    for (i, h) in hands.iter().enumerate() {
        for other in &hands[i + 1..] {
            assert_ne!(h, other);
        }
    }
}

#[test]
fn every_two_card_hand_has_its_class_among_the_dealt_ones() {
    let hands = deal_canonical(2, false);
    let all = deck();
    for a in &all {
        for b in &all {
            if a != b {
                let c = canonical_hand(&[*a, *b], false).unwrap();
                assert!(hands.contains(&c));
            }
        }
    }
}

#[test]
fn dealing_short_hands() {
    assert_eq!(deal_canonical(0, false), vec![Vec::<Card>::new()]);
    assert_eq!(deal_canonical(0, true), vec![Vec::<Card>::new()]);
    let ones = deal_canonical(1, false);
    assert_eq!(ones.len(), 13);
    assert_eq!(cards2str(&ones[0]), "2c");
    assert_eq!(cards2str(&ones[12]), "Ac");
    assert_eq!(deal_canonical(1, true), ones);
    assert_eq!(deal_canonical(2, true).len(), 169);
    assert_eq!(deal_canonical(3, false).len(), 1755);
}
