//! Compact hand codes: up to eight cards in one 64-bit integer.
//!
//! Each card takes one byte slot, lowest slot first, holding fifteen times the
//! suit plus the rank. No card has the byte zero, so the first zero slot marks
//! the end of the hand and every slot above it is zero too.

use crate::card::{all_valid, cards2str, hand_text, parse_hand, str2cards, Card};
use crate::error::HandError;
use vstd::prelude::*;

verus! {

/// The most cards that one code can hold.
pub const MAX_CARDS: usize = 8;

/// The factor that sets the suit apart from the rank within a byte.
pub const SUIT_FACTOR: u8 = 15;

/// The byte of a card.
pub open spec fn card_code(card: Card) -> int {
    SUIT_FACTOR * card.suit + card.rank
}

/// The card of a byte.
pub open spec fn code_card(byte: int) -> Card {
    Card { rank: (byte % 15) as u8, suit: (byte / 15) as u8 }
}

/// The code of a hand: the bytes of its cards, lowest slot first.
pub open spec fn pack_cards(cards: Seq<Card>) -> int
    decreases cards.len(),
{
    if cards.len() == 0 {
        0
    } else {
        card_code(cards[0]) + 256 * pack_cards(cards.drop_first())
    }
}

/// The byte in a slot of a code.
pub open spec fn slot(hand: int, index: int) -> int
    decreases index,
{
    if index <= 0 {
        hand % 256
    } else {
        slot(hand / 256, index - 1)
    }
}

/// The number of cards in a code: the index of its first zero slot.
pub open spec fn code_len(hand: int) -> int
    decreases hand,
{
    if hand <= 0 || hand % 256 == 0 {
        0
    } else {
        1 + code_len(hand / 256)
    }
}

/// The cards in the slots below the first zero slot.
pub open spec fn unpack_cards(hand: int) -> Seq<Card>
    decreases hand,
{
    if hand <= 0 || hand % 256 == 0 {
        Seq::empty()
    } else {
        seq![code_card(hand % 256)] + unpack_cards(hand / 256)
    }
}

/// Whether a code is that of a hand of deck cards: every slot below the first
/// zero slot holds a card, and every slot from there on is zero.
pub open spec fn is_code(hand: int) -> bool
    decreases hand,
{
    if hand <= 0 {
        hand == 0
    } else {
        hand % 256 != 0 && code_card(hand % 256).is_valid() && is_code(hand / 256)
    }
}

/// The number of codes that `n` slots can tell apart.
pub open spec fn slot_range(n: nat) -> int
    decreases n,
{
    if n == 0 {
        1
    } else {
        256 * slot_range((n - 1) as nat)
    }
}

/// Eight slots fill a 64-bit integer exactly.
pub proof fn lemma_slot_range_of_eight()
    ensures
        slot_range(8) == 0x1_0000_0000_0000_0000,
        forall|n: nat| n <= 8 ==> #[trigger] slot_range(n) <= slot_range(8),
{
    reveal_with_fuel(slot_range, 9);
    assert forall|n: nat| n <= 8 implies #[trigger] slot_range(n) <= slot_range(8) by {
        if n == 0 {
        } else if n == 1 {
        } else if n == 2 {
        } else if n == 3 {
        } else if n == 4 {
        } else if n == 5 {
        } else if n == 6 {
        } else if n == 7 {
        } else {
        }
    }
}

/// The code of a hand of deck cards lies below the range of its slots, and is
/// zero only for the empty hand.
pub proof fn lemma_pack_bounds(cards: Seq<Card>)
    requires
        all_valid(cards),
    ensures
        0 <= pack_cards(cards) < slot_range(cards.len()),
        cards.len() > 0 ==> pack_cards(cards) % 256 == card_code(cards[0]),
        cards.len() > 0 ==> pack_cards(cards) / 256 == pack_cards(cards.drop_first()),
        cards.len() > 0 ==> pack_cards(cards) > 0,
    decreases cards.len(),
{
    if cards.len() > 0 {
        assert(cards[0].is_valid());
        let rest = cards.drop_first();
        assert forall|i: int| 0 <= i < rest.len() implies (#[trigger] rest[i]).is_valid() by {
            assert(rest[i] == cards[i + 1]);
        }
        lemma_pack_bounds(rest);
    }
}

/// Unpacking the code of a hand of deck cards gives the hand back.
pub proof fn lemma_unpack_of_pack(cards: Seq<Card>)
    requires
        all_valid(cards),
    ensures
        unpack_cards(pack_cards(cards)) == cards,
        code_len(pack_cards(cards)) == cards.len(),
        is_code(pack_cards(cards)),
    decreases cards.len(),
{
    lemma_pack_bounds(cards);
    if cards.len() > 0 {
        let rest = cards.drop_first();
        assert(cards[0].is_valid());
        assert forall|i: int| 0 <= i < rest.len() implies (#[trigger] rest[i]).is_valid() by {
            assert(rest[i] == cards[i + 1]);
        }
        lemma_unpack_of_pack(rest);
        assert(code_card(card_code(cards[0])) == cards[0]);
        assert(unpack_cards(pack_cards(cards)) =~= cards);
    } else {
        assert(unpack_cards(pack_cards(cards)) =~= cards);
    }
}

/// Packing the cards of a code gives the code back.
pub proof fn lemma_pack_of_unpack(hand: int)
    requires
        is_code(hand),
    ensures
        pack_cards(unpack_cards(hand)) == hand,
        all_valid(unpack_cards(hand)),
        unpack_cards(hand).len() == code_len(hand),
    decreases hand,
{
    if hand > 0 {
        lemma_pack_of_unpack(hand / 256);
        let cards = unpack_cards(hand);
        let rest = unpack_cards(hand / 256);
        assert(cards.drop_first() =~= rest);
        assert(card_code(code_card(hand % 256)) == hand % 256);
        assert forall|i: int| 0 <= i < cards.len() implies (#[trigger] cards[i]).is_valid() by {
            if i > 0 {
                assert(cards[i] == rest[i - 1]);
            }
        }
    }
}

/// A 64-bit code has at most eight cards, and its slots are those of its cards.
pub proof fn lemma_code_len_bound(hand: u64)
    ensures
        0 <= code_len(hand as int) <= 8,
        unpack_cards(hand as int).len() == code_len(hand as int),
{
    lemma_slot_range_of_eight();
    lemma_code_len_below(hand as int, 8);
}

proof fn lemma_code_len_below(hand: int, n: nat)
    requires
        0 <= hand < slot_range(n),
    ensures
        0 <= code_len(hand) <= n,
        unpack_cards(hand).len() == code_len(hand),
    decreases n,
{
    if hand > 0 && hand % 256 != 0 {
        lemma_code_len_below(hand / 256, (n - 1) as nat);
    }
}

/// A code has as many cards as its length says.
pub proof fn lemma_unpack_len(hand: int)
    ensures
        unpack_cards(hand).len() == code_len(hand),
        code_len(hand) >= 0,
    decreases hand,
{
    if hand > 0 && hand % 256 != 0 {
        lemma_unpack_len(hand / 256);
    }
}

/// The slots of a code below its length hold its cards, and the slot at its
/// length is zero.
pub proof fn lemma_slots_of_code(hand: int, index: int)
    requires
        0 <= hand,
        0 <= index,
    ensures
        index < code_len(hand) ==> unpack_cards(hand)[index] == code_card(slot(hand, index))
            && slot(hand, index) != 0,
        index == code_len(hand) ==> slot(hand, index) == 0,
        0 <= slot(hand, index) < 256,
    decreases index,
{
    lemma_unpack_len(hand);
    if index > 0 {
        lemma_slots_of_code(hand / 256, index - 1);
        lemma_unpack_len(hand / 256);
        if hand > 0 && hand % 256 != 0 {
            if index < code_len(hand) {
                assert(unpack_cards(hand)[index] == unpack_cards(hand / 256)[index - 1]);
            }
        }
    }
}

/// The slot of a 64-bit code, by shifting and masking.
proof fn lemma_slot_by_shift(hand: u64, index: u64)
    requires
        index < 8,
    ensures
        slot(hand as int, index as int) == (hand & (0xFFu64 << (8 * index) as u64)) >> (8 * index) as u64,
    decreases index,
{
    let shifted = (hand & (0xFFu64 << (8 * index) as u64)) >> (8 * index) as u64;
    if index == 0 {
        assert((hand & (0xFFu64 << 0u64)) >> 0u64 == hand % 256) by (bit_vector);
    } else {
        let rest: u64 = hand / 256;
        let prev: u64 = (index - 1) as u64;
        lemma_slot_by_shift(rest, prev);
        assert((rest & (0xFFu64 << (8 * prev) as u64)) >> (8 * prev) as u64 == (hand & (0xFFu64 << (8
            * index) as u64)) >> (8 * index) as u64) by (bit_vector)
            requires
                rest == hand / 256,
                prev == index - 1,
                1 <= index < 8,
        ;
    }
}

/// The byte in slot `card_index` of a code.
pub fn card(hand: u64, card_index: i32) -> (byte: i32)
    requires
        0 <= card_index < 8,
    ensures
        byte == slot(hand as int, card_index as int),
        0 <= byte < 256,
{
    let index: u64 = card_index as u64;
    proof {
        lemma_slot_by_shift(hand, index);
        lemma_slots_of_code(hand as int, index as int);
    }
    let byte: u64 = (hand & (0xFFu64 << (8 * index))) >> (8 * index);
    byte as i32
}

/// The suit of the card in slot `card_index` of a code.
pub fn suit(hand: u64, card_index: i32) -> (suit: i32)
    requires
        0 <= card_index < 8,
    ensures
        suit == slot(hand as int, card_index as int) / 15,
        card_index < code_len(hand as int) ==> suit == unpack_cards(hand as int)[card_index as int].suit,
{
    proof {
        lemma_slots_of_code(hand as int, card_index as int);
    }
    card(hand, card_index) / 15
}

/// The rank of the card in slot `card_index` of a code.
pub fn rank(hand: u64, card_index: i32) -> (rank: i32)
    requires
        0 <= card_index < 8,
    ensures
        rank == slot(hand as int, card_index as int) % 15,
        card_index < code_len(hand as int) ==> rank == unpack_cards(hand as int)[card_index as int].rank,
{
    proof {
        lemma_slots_of_code(hand as int, card_index as int);
    }
    card(hand, card_index) % 15
}

/// The number of cards in a code.
pub fn len(hand: u64) -> (n: i32)
    ensures
        n == code_len(hand as int),
        0 <= n <= 8,
{
    proof {
        lemma_code_len_bound(hand);
    }
    let mut n: i32 = 0;
    while n < 8
        invariant
            0 <= n <= 8,
            n <= code_len(hand as int) <= 8,
        decreases 8 - n,
    {
        proof {
            lemma_slots_of_code(hand as int, n as int);
        }
        if card(hand, n) == 0 {
            return n;
        }
        n = n + 1;
    }
    n
}

/// Packs a hand of at most eight cards into its code.
pub fn pack(cards: &[Card]) -> (result: Result<u64, HandError>)
    requires
        all_valid(cards@),
    ensures
        result == if cards@.len() <= MAX_CARDS {
            Ok::<u64, HandError>(pack_cards(cards@) as u64)
        } else {
            Err::<u64, HandError>(HandError::CapacityExceeded)
        },
        cards@.len() <= MAX_CARDS ==> pack_cards(cards@) <= u64::MAX,
{
    if cards.len() > MAX_CARDS {
        return Err(HandError::CapacityExceeded);
    }
    let mut hand: u64 = 0;
    let mut i: usize = cards.len();
    proof {
        assert(cards@.skip(i as int) =~= Seq::<Card>::empty());
    }
    while i > 0
        invariant
            i <= cards@.len() <= MAX_CARDS,
            all_valid(cards@),
            hand == pack_cards(cards@.skip(i as int)),
        decreases i,
    {
        i = i - 1;
        proof {
            let tail = cards@.skip(i as int);
            assert(tail.drop_first() =~= cards@.skip(i + 1));
            assert(tail[0] == cards@[i as int]);
            assert(cards@[i as int].is_valid());
            assert forall|j: int| 0 <= j < tail.len() implies (#[trigger] tail[j]).is_valid() by {
                assert(tail[j] == cards@[i + j]);
            }
            lemma_pack_bounds(tail);
            lemma_slot_range_of_eight();
        }
        let byte: u64 = (SUIT_FACTOR * cards[i].suit + cards[i].rank) as u64;
        hand = hand * 256 + byte;
    }
    proof {
        assert(cards@.skip(0) =~= cards@);
    }
    Ok(hand)
}

/// Unpacks a code into its cards.
pub fn unpack(hand: u64) -> (result: Result<Vec<Card>, HandError>)
    ensures
        match result {
            Ok(cards) => is_code(hand as int) && cards@ == unpack_cards(hand as int),
            Err(e) => !is_code(hand as int) && e == HandError::MalformedCode,
        },
{
    let mut cards: Vec<Card> = Vec::new();
    let mut rest: u64 = hand;
    while rest != 0
        invariant
            is_code(hand as int) == is_code(rest as int),
            unpack_cards(hand as int) == cards@ + unpack_cards(rest as int),
        decreases rest,
    {
        let byte: u64 = rest % 256;
        let card = Card { rank: (byte % 15) as u8, suit: (byte / 15) as u8 };
        if byte == 0 || !card.check_valid() {
            return Err(HandError::MalformedCode);
        }
        proof {
            assert(cards@.push(card) + unpack_cards((rest / 256) as int) =~= cards@ + unpack_cards(
                rest as int,
            ));
        }
        cards.push(card);
        rest = rest / 256;
    }
    Ok(cards)
}

/// The code that a hand's text stands for.
pub open spec fn text_code(text: Seq<char>) -> Result<u64, HandError> {
    match parse_hand(text) {
        None => Err(HandError::ParseError),
        Some(cards) => if cards.len() <= MAX_CARDS {
            Ok(pack_cards(cards) as u64)
        } else {
            Err(HandError::CapacityExceeded)
        },
    }
}

/// Reads the text of a hand and packs it into its code.
pub fn str2hand(hand_str: &str) -> (result: Result<u64, HandError>)
    ensures
        result == text_code(hand_str@),
{
    match str2cards(hand_str) {
        Ok(cards) => pack(cards.as_slice()),
        Err(e) => Err(e),
    }
}

/// Writes the hand of a code as text.
pub fn hand2str(hand: u64) -> (result: Result<String, HandError>)
    ensures
        match result {
            Ok(text) => is_code(hand as int) && text@ == hand_text(unpack_cards(hand as int)),
            Err(e) => !is_code(hand as int) && e == HandError::MalformedCode,
        },
{
    match unpack(hand) {
        Ok(cards) => {
            proof {
                lemma_pack_of_unpack(hand as int);
            }
            Ok(cards2str(cards.as_slice()))
        },
        Err(e) => Err(e),
    }
}

/// Reading the text that a code is written as gives the code back.
pub proof fn lemma_text_roundtrip(hand: u64)
    requires
        is_code(hand as int),
    ensures
        text_code(hand_text(unpack_cards(hand as int))) == Ok::<u64, HandError>(hand),
{
    lemma_pack_of_unpack(hand as int);
    lemma_code_len_bound(hand);
    crate::card::lemma_parse_of_hand_text(unpack_cards(hand as int));
}

} // verus!
