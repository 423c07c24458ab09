use holdem_abstraction::card::{deck, Card};
use holdem_abstraction::compact::{card, hand2str, len, pack, rank, str2hand, suit, unpack};
use holdem_abstraction::error::HandError;

fn c(token: &str) -> Card {
    Card::new(token).unwrap()
}

#[test]
fn pack_puts_each_card_in_its_byte() {
    assert_eq!(pack(&[]), Ok(0));
    assert_eq!(pack(&[c("2c")]), Ok(2));
    assert_eq!(pack(&[c("Ah")]), Ok(44));
    assert_eq!(pack(&[c("As")]), Ok(59));
    assert_eq!(pack(&[c("2c"), c("3d")]), Ok(2 + 256 * 18));
    assert_eq!(pack(&[c("3d"), c("2c")]), Ok(18 + 256 * 2));
    assert_eq!(
        pack(&[c("As"), c("As"), c("As"), c("As"), c("As"), c("As"), c("As"), c("As")]),
        Ok(0x3b3b_3b3b_3b3b_3b3b)
    );
}

#[test]
fn pack_and_unpack_round_trip_hands_of_up_to_eight_cards() {
    let all = deck();
    for n in 0..=8usize {
        for start in [0usize, 1, 7, 20, 44] {
            let hand: Vec<Card> = all[start..start + n].to_vec();
            let code = pack(&hand).unwrap();
            assert_eq!(len(code), n as i32);
            assert_eq!(unpack(code), Ok(hand.clone()));
            let mut reversed = hand.clone();
            reversed.reverse();
            let code = pack(&reversed).unwrap();
            assert_eq!(unpack(code), Ok(reversed.clone()));
            assert_eq!(pack(&unpack(code).unwrap()), Ok(code));
        }
    }
}

#[test]
fn a_ninth_card_is_rejected() {
    let all = deck();
    assert_eq!(pack(&all[0..9]), Err(HandError::CapacityExceeded));
    assert_eq!(pack(&all), Err(HandError::CapacityExceeded));
    assert_eq!(str2hand("2c3c4c5c6c7c8c9cTc"), Err(HandError::CapacityExceeded));
    assert!(pack(&all[0..8]).is_ok());
    assert!(str2hand("2c3c4c5c6c7c8c9c").is_ok());
}

#[test]
fn distinct_hands_have_distinct_codes() {
    let all = deck();
    let mut codes = Vec::new();
    for a in &all {
        for b in &all {
            codes.push(pack(&[*a, *b]).unwrap());
        }
        codes.push(pack(&[*a]).unwrap());
    }
    codes.push(0);
    let n = codes.len();
    codes.sort();
    codes.dedup();
    assert_eq!(codes.len(), n);
}

#[test]
fn slots_give_card_suit_and_rank() {
    let code = str2hand("7cAhKd").unwrap();
    assert_eq!(len(code), 3);
    assert_eq!(card(code, 0), 7);
    assert_eq!(card(code, 1), 44);
    assert_eq!(card(code, 2), 28);
    assert_eq!(card(code, 3), 0);
    assert_eq!(card(code, 7), 0);
    assert_eq!(rank(code, 0), 7);
    assert_eq!(suit(code, 0), 0);
    assert_eq!(rank(code, 1), 14);
    assert_eq!(suit(code, 1), 2);
    assert_eq!(rank(code, 2), 13);
    assert_eq!(suit(code, 2), 1);
    assert_eq!(card(u64::MAX, 7), 255);
    assert_eq!(card(0x0807_0605_0403_0201, 5), 6);
}

#[test]
fn len_is_the_first_empty_slot() {
    assert_eq!(len(0), 0);
    assert_eq!(len(2), 1);
    assert_eq!(len(0x0100), 0);
    assert_eq!(len(0x0001_0002), 1);
    assert_eq!(len(0x3b3b_3b3b_3b3b_3b3b), 8);
    assert_eq!(len(0x003b_3b3b_3b3b_3b3b), 7);
    assert_eq!(len(u64::MAX), 8);
}

#[test]
fn str2hand_packs_the_text() {
    assert_eq!(str2hand(""), Ok(0));
    assert_eq!(str2hand("2c"), Ok(2));
    assert_eq!(str2hand("Ah"), Ok(44));
    assert_eq!(str2hand("2c3d"), Ok(4610));
    assert_eq!(str2hand("2c3"), Err(HandError::ParseError));
    assert_eq!(str2hand("2c3x"), Err(HandError::ParseError));
    assert_eq!(str2hand("2c3dX"), Err(HandError::ParseError));
    assert_eq!(str2hand("1c2c3c4c5c6c7c8c9c"), Err(HandError::ParseError));
}

#[test]
fn hand2str_writes_the_cards_of_a_code() {
    assert_eq!(hand2str(0), Ok(String::new()));
    assert_eq!(hand2str(4610), Ok("2c3d".to_string()));
    let text = "As4d8c9h2dKsQh";
    assert_eq!(hand2str(str2hand(text).unwrap()), Ok(text.to_string()));
    assert_eq!(str2hand(&hand2str(0x3b2c_1d0e).unwrap()), Ok(0x3b2c_1d0e));
}

#[test]
fn malformed_codes_are_rejected() {
    for bad in [1u64, 15, 16, 60, 255, 0x0100, 0x0002_0000, 0x0200_0000_0000_0002, u64::MAX] {
        assert_eq!(unpack(bad), Err(HandError::MalformedCode), "{:#x}", bad);
        assert_eq!(hand2str(bad), Err(HandError::MalformedCode), "{:#x}", bad);
    }
}
