//! Single cards: their ranks and suits, their two-character tokens, and the deck.

use crate::error::HandError;
use vstd::prelude::*;
use vstd::string::*;

verus! {

pub const CLUBS: u8 = 0;

pub const DIAMONDS: u8 = 1;

pub const HEARTS: u8 = 2;

pub const SPADES: u8 = 3;

/// Lowest rank, the deuce.
pub const MIN_RANK: u8 = 2;

/// Highest rank, the ace.
pub const MAX_RANK: u8 = 14;

/// A playing card. Ranks run from 2 to 14 (ace high), suits from 0 to 3.
#[derive(Clone, Copy, Debug, PartialEq, Eq, Structural, PartialOrd, Ord, Hash)]
pub struct Card {
    pub rank: u8,
    pub suit: u8,
}

/// The rank that a token's first character stands for.
pub open spec fn rank_of_char(c: char) -> Option<u8> {
    if c == '2' {
        Some(2u8)
    } else if c == '3' {
        Some(3u8)
    } else if c == '4' {
        Some(4u8)
    } else if c == '5' {
        Some(5u8)
    } else if c == '6' {
        Some(6u8)
    } else if c == '7' {
        Some(7u8)
    } else if c == '8' {
        Some(8u8)
    } else if c == '9' {
        Some(9u8)
    } else if c == 'T' {
        Some(10u8)
    } else if c == 'J' {
        Some(11u8)
    } else if c == 'Q' {
        Some(12u8)
    } else if c == 'K' {
        Some(13u8)
    } else if c == 'A' {
        Some(14u8)
    } else {
        None
    }
}

/// The suit that a token's second character stands for.
pub open spec fn suit_of_char(c: char) -> Option<u8> {
    if c == 'c' {
        Some(CLUBS)
    } else if c == 'd' {
        Some(DIAMONDS)
    } else if c == 'h' {
        Some(HEARTS)
    } else if c == 's' {
        Some(SPADES)
    } else {
        None
    }
}

/// The character that a rank is written as.
pub open spec fn char_of_rank(rank: u8) -> char {
    if rank == 2 {
        '2'
    } else if rank == 3 {
        '3'
    } else if rank == 4 {
        '4'
    } else if rank == 5 {
        '5'
    } else if rank == 6 {
        '6'
    } else if rank == 7 {
        '7'
    } else if rank == 8 {
        '8'
    } else if rank == 9 {
        '9'
    } else if rank == 10 {
        'T'
    } else if rank == 11 {
        'J'
    } else if rank == 12 {
        'Q'
    } else if rank == 13 {
        'K'
    } else {
        'A'
    }
}

/// The character that a suit is written as.
pub open spec fn char_of_suit(suit: u8) -> char {
    if suit == CLUBS {
        'c'
    } else if suit == DIAMONDS {
        'd'
    } else if suit == HEARTS {
        'h'
    } else {
        's'
    }
}

/// The card that a token denotes, if it is a rank character followed by a
/// suit character and nothing else.
pub open spec fn parse_card(token: Seq<char>) -> Option<Card> {
    if token.len() == 2 && rank_of_char(token[0]) is Some && suit_of_char(token[1]) is Some {
        Some(Card { rank: rank_of_char(token[0])->0, suit: suit_of_char(token[1])->0 })
    } else {
        None
    }
}

/// The two-character token of a card.
pub open spec fn card_text(card: Card) -> Seq<char> {
    seq![char_of_rank(card.rank), char_of_suit(card.suit)]
}

/// The text of a hand: the tokens of its cards, one after another.
pub open spec fn hand_text(cards: Seq<Card>) -> Seq<char> {
    Seq::new(
        2 * cards.len(),
        |i: int|
            if i % 2 == 0 {
                char_of_rank(cards[i / 2].rank)
            } else {
                char_of_suit(cards[i / 2].suit)
            },
    )
}

/// The hand that a text denotes: one card for each pair of characters.
pub open spec fn parse_hand(text: Seq<char>) -> Option<Seq<Card>> {
    if text.len() % 2 == 0 && forall|k: int|
        0 <= k < text.len() / 2 ==> (#[trigger] parse_card(text.subrange(2 * k, 2 * k + 2))) is Some {
        Some(Seq::new((text.len() / 2) as nat, |k: int| parse_card(text.subrange(2 * k, 2 * k + 2))->0))
    } else {
        None
    }
}

/// Whether every card of the hand is a card of the deck.
pub open spec fn all_valid(cards: Seq<Card>) -> bool {
    forall|i: int| 0 <= i < cards.len() ==> (#[trigger] cards[i]).is_valid()
}

/// The 52 cards in dealing order: by rank, and within a rank by suit.
pub open spec fn deck_cards() -> Seq<Card> {
    Seq::new(52, |i: int| Card { rank: (2 + i / 4) as u8, suit: (i % 4) as u8 })
}

impl Card {
    /// Whether rank and suit are those of a card of the deck.
    pub open spec fn is_valid(self) -> bool {
        MIN_RANK <= self.rank <= MAX_RANK && self.suit <= SPADES
    }

    /// Parses a two-character token such as `Ah` or `7c`.
    pub fn new(card: &str) -> (result: Result<Card, HandError>)
        ensures
            result == match parse_card(card@) {
                Some(c) => Ok::<Card, HandError>(c),
                None => Err::<Card, HandError>(HandError::ParseError),
            },
            result is Ok ==> result->Ok_0.is_valid(),
    {
        if card.unicode_len() != 2 {
            return Err(HandError::ParseError);
        }
        let rank = rank_from_char(card.get_char(0));
        let suit = suit_from_char(card.get_char(1));
        match (rank, suit) {
            (Some(rank), Some(suit)) => Ok(Card { rank, suit }),
            _ => Err(HandError::ParseError),
        }
    }

    /// Runtime form of [`Card::is_valid`].
    pub fn check_valid(&self) -> (ok: bool)
        ensures
            ok == self.is_valid(),
    {
        MIN_RANK <= self.rank && self.rank <= MAX_RANK && self.suit <= SPADES
    }

    /// The card's two-character token.
    pub fn to_string(&self) -> (text: String)
        requires
            self.is_valid(),
        ensures
            text@ == card_text(*self),
    {
        let mut text = String::new();
        text.append(rank_str(self.rank));
        text.append(suit_str(self.suit));
        assert(text@ =~= card_text(*self));
        text
    }
}

fn rank_from_char(c: char) -> (rank: Option<u8>)
    ensures
        rank == rank_of_char(c),
        rank is Some ==> MIN_RANK <= rank->0 <= MAX_RANK,
{
    if c == '2' {
        Some(2)
    } else if c == '3' {
        Some(3)
    } else if c == '4' {
        Some(4)
    } else if c == '5' {
        Some(5)
    } else if c == '6' {
        Some(6)
    } else if c == '7' {
        Some(7)
    } else if c == '8' {
        Some(8)
    } else if c == '9' {
        Some(9)
    } else if c == 'T' {
        Some(10)
    } else if c == 'J' {
        Some(11)
    } else if c == 'Q' {
        Some(12)
    } else if c == 'K' {
        Some(13)
    } else if c == 'A' {
        Some(14)
    } else {
        None
    }
}

fn suit_from_char(c: char) -> (suit: Option<u8>)
    ensures
        suit == suit_of_char(c),
        suit is Some ==> suit->0 <= SPADES,
{
    if c == 'c' {
        Some(CLUBS)
    } else if c == 'd' {
        Some(DIAMONDS)
    } else if c == 'h' {
        Some(HEARTS)
    } else if c == 's' {
        Some(SPADES)
    } else {
        None
    }
}

fn rank_str(rank: u8) -> (text: &'static str)
    requires
        MIN_RANK <= rank <= MAX_RANK,
    ensures
        text@ == seq![char_of_rank(rank)],
{
    proof {
        reveal_strlit("2");
        reveal_strlit("3");
        reveal_strlit("4");
        reveal_strlit("5");
        reveal_strlit("6");
        reveal_strlit("7");
        reveal_strlit("8");
        reveal_strlit("9");
        reveal_strlit("T");
        reveal_strlit("J");
        reveal_strlit("Q");
        reveal_strlit("K");
        reveal_strlit("A");
    }
    let text = if rank == 2 {
        "2"
    } else if rank == 3 {
        "3"
    } else if rank == 4 {
        "4"
    } else if rank == 5 {
        "5"
    } else if rank == 6 {
        "6"
    } else if rank == 7 {
        "7"
    } else if rank == 8 {
        "8"
    } else if rank == 9 {
        "9"
    } else if rank == 10 {
        "T"
    } else if rank == 11 {
        "J"
    } else if rank == 12 {
        "Q"
    } else if rank == 13 {
        "K"
    } else {
        "A"
    };
    assert(text@ =~= seq![char_of_rank(rank)]);
    text
}

fn suit_str(suit: u8) -> (text: &'static str)
    requires
        suit <= SPADES,
    ensures
        text@ == seq![char_of_suit(suit)],
{
    proof {
        reveal_strlit("c");
        reveal_strlit("d");
        reveal_strlit("h");
        reveal_strlit("s");
    }
    let text = if suit == CLUBS {
        "c"
    } else if suit == DIAMONDS {
        "d"
    } else if suit == HEARTS {
        "h"
    } else {
        "s"
    };
    assert(text@ =~= seq![char_of_suit(suit)]);
    text
}

/// Formatting the card that a token parses to gives the token back.
pub proof fn lemma_format_of_parsed_token(token: Seq<char>)
    requires
        parse_card(token) is Some,
    ensures
        card_text(parse_card(token)->0) == token,
        parse_card(token)->0.is_valid(),
{
    assert(card_text(parse_card(token)->0) =~= token);
}

/// Parsing the token of a card of the deck gives the card back.
pub proof fn lemma_parse_of_card_text(card: Card)
    requires
        card.is_valid(),
    ensures
        parse_card(card_text(card)) == Some(card),
{
}

/// Formatting the hand that a text parses to gives the text back.
pub proof fn lemma_format_of_parsed_hand(text: Seq<char>)
    requires
        parse_hand(text) is Some,
    ensures
        hand_text(parse_hand(text)->0) == text,
        all_valid(parse_hand(text)->0),
{
    let cards = parse_hand(text)->0;
    assert forall|i: int| 0 <= i < text.len() implies hand_text(cards)[i] == text[i] by {
        let k = i / 2;
        let token = text.subrange(2 * k, 2 * k + 2);
        assert(parse_card(token) is Some);
        lemma_format_of_parsed_token(token);
        assert(card_text(cards[k])[i - 2 * k] == token[i - 2 * k]);
    }
    assert(hand_text(cards) =~= text);
    assert forall|k: int| 0 <= k < cards.len() implies (#[trigger] cards[k]).is_valid() by {
        let token = text.subrange(2 * k, 2 * k + 2);
        assert(parse_card(token) is Some);
        lemma_format_of_parsed_token(token);
    }
}

/// Parsing the text of a hand of deck cards gives the hand back.
pub proof fn lemma_parse_of_hand_text(cards: Seq<Card>)
    requires
        all_valid(cards),
    ensures
        parse_hand(hand_text(cards)) == Some(cards),
{
    let text = hand_text(cards);
    assert forall|k: int| 0 <= k < text.len() / 2 implies (#[trigger] parse_card(
        text.subrange(2 * k, 2 * k + 2),
    )) == Some(cards[k]) by {
        assert(cards[k].is_valid());
        assert(text.subrange(2 * k, 2 * k + 2) =~= card_text(cards[k]));
        lemma_parse_of_card_text(cards[k]);
    }
    assert(parse_hand(text)->0 =~= cards);
}

/// The 52 cards of the deck, by rank and within a rank by suit.
pub fn deck() -> (cards: Vec<Card>)
    ensures
        cards@ == deck_cards(),
{
    let mut cards: Vec<Card> = Vec::new();
    let mut rank: u8 = MIN_RANK;
    while rank <= MAX_RANK
        invariant
            MIN_RANK <= rank <= MAX_RANK + 1,
            cards@.len() == 4 * (rank - MIN_RANK),
            forall|i: int| 0 <= i < cards@.len() ==> cards@[i] == deck_cards()[i],
        decreases MAX_RANK + 1 - rank,
    {
        let mut suit: u8 = CLUBS;
        while suit <= SPADES
            invariant
                MIN_RANK <= rank <= MAX_RANK,
                suit <= SPADES + 1,
                cards@.len() == 4 * (rank - MIN_RANK) + suit,
                forall|i: int| 0 <= i < cards@.len() ==> cards@[i] == deck_cards()[i],
            decreases SPADES + 1 - suit,
        {
            cards.push(Card { rank, suit });
            suit = suit + 1;
        }
        rank = rank + 1;
    }
    assert(cards@ =~= deck_cards());
    cards
}

/// Every card of the deck is valid, and no card occurs twice.
pub proof fn lemma_deck_cards()
    ensures
        deck_cards().len() == 52,
        all_valid(deck_cards()),
        deck_cards().no_duplicates(),
        forall|c: Card| c.is_valid() ==> deck_cards()[4 * (c.rank - 2) + c.suit] == c,
{
}

/// Copies the cards behind a list of references.
pub fn deepcopy(vec: &Vec<&Card>) -> (result: Vec<Card>)
    ensures
        result@.len() == vec@.len(),
        forall|i: int| 0 <= i < vec@.len() ==> result@[i] == *vec@[i],
{
    let mut result: Vec<Card> = Vec::new();
    let mut i: usize = 0;
    while i < vec.len()
        invariant
            i <= vec@.len(),
            result@.len() == i,
            forall|j: int| 0 <= j < i ==> result@[j] == *vec@[j],
        decreases vec@.len() - i,
    {
        result.push(*vec[i]);
        i = i + 1;
    }
    result
}

/// Writes a hand as text, one two-character token per card.
pub fn cards2str(cards: &[Card]) -> (text: String)
    requires
        all_valid(cards@),
    ensures
        text@ == hand_text(cards@),
{
    let mut text = String::new();
    let mut i: usize = 0;
    while i < cards.len()
        invariant
            i <= cards@.len(),
            all_valid(cards@),
            text@ == hand_text(cards@.take(i as int)),
        decreases cards@.len() - i,
    {
        let token = cards[i].to_string();
        text.append(token.as_str());
        i = i + 1;
        assert(text@ =~= hand_text(cards@.take(i as int)));
    }
    assert(cards@.take(i as int) =~= cards@);
    text
}

/// Parses a list of tokens into the cards they denote.
pub fn strvec2cards(strvec: &[&str]) -> (result: Result<Vec<Card>, HandError>)
    ensures
        match result {
            Ok(cards) => cards@.len() == strvec@.len() && all_valid(cards@) && forall|i: int|
                0 <= i < strvec@.len() ==> parse_card(strvec@[i]@) == Some(#[trigger] cards@[i]),
            Err(e) => e == HandError::ParseError && exists|i: int|
                0 <= i < strvec@.len() && parse_card(#[trigger] strvec@[i]@) is None,
        },
{
    let mut cards: Vec<Card> = Vec::new();
    let mut i: usize = 0;
    while i < strvec.len()
        invariant
            i <= strvec@.len(),
            cards@.len() == i,
            all_valid(cards@),
            forall|j: int| 0 <= j < i ==> parse_card(strvec@[j]@) == Some(#[trigger] cards@[j]),
        decreases strvec@.len() - i,
    {
        match Card::new(strvec[i]) {
            Ok(card) => {
                cards.push(card);
            },
            Err(e) => {
                assert(parse_card(strvec@[i as int]@) is None);
                return Err(e);
            },
        }
        i = i + 1;
    }
    Ok(cards)
}

/// Parses the text of a hand: two characters for each card.
pub fn str2cards(text: &str) -> (result: Result<Vec<Card>, HandError>)
    ensures
        match result {
            Ok(cards) => parse_hand(text@) == Some(cards@) && all_valid(cards@),
            Err(e) => parse_hand(text@) is None && e == HandError::ParseError,
        },
{
    let n = text.unicode_len();
    if n % 2 != 0 {
        return Err(HandError::ParseError);
    }
    let mut cards: Vec<Card> = Vec::new();
    let mut k: usize = 0;
    while k < n / 2
        invariant
            n == text@.len(),
            n % 2 == 0,
            k <= n / 2,
            cards@.len() == k,
            all_valid(cards@),
            forall|j: int|
                0 <= j < k ==> (#[trigger] parse_card(text@.subrange(2 * j, 2 * j + 2))) == Some(
                    cards@[j],
                ),
        decreases n / 2 - k,
    {
        let rank = rank_from_char(text.get_char(2 * k));
        let suit = suit_from_char(text.get_char(2 * k + 1));
        let ghost token = text@.subrange(2 * k, 2 * k + 2);
        match (rank, suit) {
            (Some(rank), Some(suit)) => {
                assert(parse_card(token) == Some(Card { rank, suit }));
                cards.push(Card { rank, suit });
            },
            _ => {
                assert(parse_card(token) is None);
                return Err(HandError::ParseError);
            },
        }
        k = k + 1;
    }
    assert(parse_hand(text@)->0 =~= cards@);
    Ok(cards)
}

} // verus!
