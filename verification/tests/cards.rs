use holdem_abstraction::card::{cards2str, deck, deepcopy, str2cards, strvec2cards, Card};
use holdem_abstraction::error::HandError;

const RANKS: [&str; 13] = ["2", "3", "4", "5", "6", "7", "8", "9", "T", "J", "Q", "K", "A"];
const SUITS: [&str; 4] = ["c", "d", "h", "s"];

fn card(token: &str) -> Card {
    Card::new(token).unwrap()
}

#[test]
fn parse_gives_rank_and_suit() {
    assert_eq!(Card::new("2c"), Ok(Card { rank: 2, suit: 0 }));
    assert_eq!(Card::new("Td"), Ok(Card { rank: 10, suit: 1 }));
    assert_eq!(Card::new("Jh"), Ok(Card { rank: 11, suit: 2 }));
    assert_eq!(Card::new("Qs"), Ok(Card { rank: 12, suit: 3 }));
    assert_eq!(Card::new("Kc"), Ok(Card { rank: 13, suit: 0 }));
    assert_eq!(Card::new("As"), Ok(Card { rank: 14, suit: 3 }));
}

#[test]
fn format_of_parse_is_identity_on_every_token() {
    let mut seen = 0;
    for (r, rank) in RANKS.iter().enumerate() {
        for (s, suit) in SUITS.iter().enumerate() {
            let token = format!("{}{}", rank, suit);
            let parsed = Card::new(&token).unwrap();
            assert_eq!(parsed.rank as usize, r + 2);
            assert_eq!(parsed.suit as usize, s);
            assert_eq!(parsed.to_string(), token);
            seen += 1;
        }
    }
    assert_eq!(seen, 52);
}

#[test]
fn parse_of_format_is_identity_on_every_card() {
    for c in deck() {
        assert_eq!(Card::new(&c.to_string()), Ok(c));
    }
}

#[test]
fn parse_rejects_malformed_tokens() {
    for bad in ["", "A", "Ahx", "1h", "Ax", "ah", "hA", "10h", " h", "A ", "Äh", "A♥"] {
        assert_eq!(Card::new(bad), Err(HandError::ParseError), "{:?}", bad);
    }
}

#[test]
fn validity_check_follows_rank_and_suit() {
    assert!(Card { rank: 2, suit: 0 }.check_valid());
    assert!(Card { rank: 14, suit: 3 }.check_valid());
    assert!(!Card { rank: 1, suit: 0 }.check_valid());
    assert!(!Card { rank: 15, suit: 0 }.check_valid());
    assert!(!Card { rank: 7, suit: 4 }.check_valid());
}

#[test]
fn cards_are_ordered_by_rank_then_suit() {
    assert!(card("2s") < card("3c"));
    assert!(card("3c") < card("3d"));
    assert_eq!(card("Ah"), card("Ah"));
    assert_ne!(card("Ah"), card("Ad"));
}

#[test]
fn deck_holds_each_card_once_by_rank_then_suit() {
    let cards = deck();
    assert_eq!(cards.len(), 52);
    assert_eq!(cards[0], Card { rank: 2, suit: 0 });
    assert_eq!(cards[1], Card { rank: 2, suit: 1 });
    assert_eq!(cards[4], Card { rank: 3, suit: 0 });
    assert_eq!(cards[51], Card { rank: 14, suit: 3 });
    for (i, c) in cards.iter().enumerate() {
        assert_eq!(c.rank as usize, 2 + i / 4);
        assert_eq!(c.suit as usize, i % 4);
        assert!(c.check_valid());
        for other in &cards[i + 1..] {
            assert_ne!(c, other);
        }
    }
}

#[test]
fn deepcopy_copies_the_cards_behind_the_references() {
    let a = card("Ah");
    let b = card("7c");
    let refs = vec![&a, &b, &a];
    assert_eq!(deepcopy(&refs), vec![a, b, a]);
    let none: Vec<&Card> = Vec::new();
    assert_eq!(deepcopy(&none), Vec::<Card>::new());
}

#[test]
fn cards2str_joins_the_tokens() {
    let hand = vec![card("As"), card("4d"), card("8c"), card("9h"), card("2d")];
    assert_eq!(cards2str(&hand), "As4d8c9h2d");
    assert_eq!(cards2str(&[]), "");
}

#[test]
fn strvec2cards_parses_each_token() {
    assert_eq!(
        strvec2cards(&["As", "4d", "8c"]),
        Ok(vec![card("As"), card("4d"), card("8c")])
    );
    assert_eq!(strvec2cards(&[]), Ok(vec![]));
    assert_eq!(strvec2cards(&["As", "4x", "8c"]), Err(HandError::ParseError));
    assert_eq!(strvec2cards(&["As4d"]), Err(HandError::ParseError));
}

#[test]
fn str2cards_reads_two_characters_a_card() {
    assert_eq!(
        str2cards("As4d8c9h2d"),
        Ok(vec![card("As"), card("4d"), card("8c"), card("9h"), card("2d")])
    );
    assert_eq!(str2cards(""), Ok(vec![]));
    assert_eq!(str2cards("As4"), Err(HandError::ParseError));
    assert_eq!(str2cards("As4d8x"), Err(HandError::ParseError));
    assert_eq!(str2cards("sA"), Err(HandError::ParseError));
}

#[test]
fn text_of_a_hand_round_trips() {
    let text = "2c3d4h5sTcJdQhKsAc";
    assert_eq!(cards2str(&str2cards(text).unwrap()), text);
}
