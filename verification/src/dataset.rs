//! Reading the datasets: JSON objects that give a number to the text of a hand.

use crate::card::{all_valid, lemma_format_of_parsed_hand, parse_hand, str2cards, Card};
use crate::compact::{
    lemma_pack_bounds, lemma_slot_range_of_eight, lemma_unpack_of_pack, pack, pack_cards,
};
use crate::error::HandError;
use std::collections::HashMap;
use vstd::prelude::*;

verus! {

/// The error of `serde_json`, taken as it comes and never looked into.
#[verifier::external_type_specification]
#[verifier::external_body]
pub struct ExJsonError(serde_json::Error);

/// The numbers that a JSON text gives by key, where the text is a JSON object
/// whose values are 32-bit integers.
pub uninterp spec fn json_numbers(text: Seq<char>) -> Option<Map<Seq<char>, i32>>;

/// Whether `entries` lists what `map` holds: every key once with its value,
/// in any order.
pub open spec fn lists_entries(entries: Seq<(String, i32)>, map: Map<Seq<char>, i32>) -> bool {
    &&& forall|i: int|
        0 <= i < entries.len() ==> map.contains_key((#[trigger] entries[i]).0@) && map[entries[i].0@]
            == entries[i].1
    &&& forall|key: Seq<char>| #[trigger]
        map.contains_key(key) ==> exists|i: int|
            0 <= i < entries.len() && (#[trigger] entries[i]).0@ == key
    &&& forall|i: int, j: int|
        0 <= i < j < entries.len() ==> (#[trigger] entries[i]).0@ != (#[trigger] entries[j]).0@
}

/// Reads a JSON object of integers with `serde_json::from_str` and lists its
/// entries. The contract names what the text holds and says that the list
/// holds each key of it once, with its value; the order of the list is that
/// of a hash map and is left open. A text that is no such object gives the
/// crate's error.
#[verifier::external_body]
fn parse_numbers(text: &str) -> (result: Result<Vec<(String, i32)>, serde_json::Error>)
    ensures
        match result {
            Ok(entries) => json_numbers(text@) is Some && lists_entries(
                entries@,
                json_numbers(text@)->0,
            ),
            Err(_) => json_numbers(text@) is None,
        },
{
    match serde_json::from_str::<HashMap<String, i32>>(text) {
        Ok(map) => Ok(map.into_iter().collect()),
        Err(e) => Err(e),
    }
}

/// The key under which a table holds what it knows of a hand.
pub open spec fn hand_key(cards: Seq<Card>) -> u64 {
    pack_cards(cards) as u64
}

/// Whether a text names a hand of `cards` cards.
pub open spec fn is_hand_text(text: Seq<char>, cards: nat) -> bool {
    parse_hand(text) is Some && parse_hand(text)->0.len() == cards
}

/// The key of the hand that a text names.
pub open spec fn text_key(text: Seq<char>) -> u64 {
    hand_key(parse_hand(text)->0)
}

/// The table that entries make, later entries replacing earlier ones.
pub open spec fn table_of_entries(entries: Seq<(Seq<char>, i32)>) -> Map<u64, i32>
    decreases entries.len(),
{
    if entries.len() == 0 {
        Map::empty()
    } else {
        table_of_entries(entries.drop_last()).insert(
            text_key(entries.last().0),
            entries.last().1,
        )
    }
}

/// The texts and numbers that a list of entries holds.
pub open spec fn entry_texts(entries: Seq<(String, i32)>) -> Seq<(Seq<char>, i32)> {
    Seq::new(entries.len(), |i: int| (entries[i].0@, entries[i].1))
}

/// The table that gives the key of each hand the number that the map gives
/// the text of the hand.
pub open spec fn keyed_table(map: Map<Seq<char>, i32>) -> Map<u64, i32> {
    Map::new(
        |key: u64| exists|text: Seq<char>| #[trigger] map.contains_key(text) && text_key(text) == key,
        |key: u64| map[choose|text: Seq<char>| #[trigger] map.contains_key(text) && text_key(text) == key],
    )
}

/// Hands of at most eight deck cards with the same key are the same hand.
pub proof fn lemma_hand_key_injective(a: Seq<Card>, b: Seq<Card>)
    requires
        all_valid(a),
        all_valid(b),
        a.len() <= 8,
        b.len() <= 8,
        hand_key(a) == hand_key(b),
    ensures
        a == b,
{
    lemma_pack_bounds(a);
    lemma_pack_bounds(b);
    lemma_slot_range_of_eight();
    lemma_unpack_of_pack(a);
    lemma_unpack_of_pack(b);
}

/// Texts of hands of at most eight cards with the same key are the same text.
pub proof fn lemma_text_key_injective(a: Seq<char>, b: Seq<char>, cards: nat)
    requires
        cards <= 8,
        is_hand_text(a, cards),
        is_hand_text(b, cards),
        text_key(a) == text_key(b),
    ensures
        a == b,
{
    lemma_format_of_parsed_hand(a);
    lemma_format_of_parsed_hand(b);
    lemma_hand_key_injective(parse_hand(a)->0, parse_hand(b)->0);
}

/// The table made of entries with different texts holds the key of each text
/// with its number, and no other key.
pub proof fn lemma_table_of_entries(entries: Seq<(Seq<char>, i32)>, cards: nat)
    requires
        cards <= 8,
        forall|i: int| 0 <= i < entries.len() ==> is_hand_text((#[trigger] entries[i]).0, cards),
        forall|i: int, j: int|
            0 <= i < j < entries.len() ==> (#[trigger] entries[i]).0 != (#[trigger] entries[j]).0,
    ensures
        forall|i: int|
            0 <= i < entries.len() ==> table_of_entries(entries).contains_key(
                text_key((#[trigger] entries[i]).0),
            ) && table_of_entries(entries)[text_key(entries[i].0)] == entries[i].1,
        forall|key: u64| #[trigger]
            table_of_entries(entries).contains_key(key) ==> exists|i: int|
                0 <= i < entries.len() && text_key((#[trigger] entries[i]).0) == key,
    decreases entries.len(),
{
    if entries.len() > 0 {
        let before = entries.drop_last();
        let last = entries.last();
        assert forall|i: int| 0 <= i < before.len() implies is_hand_text(
            (#[trigger] before[i]).0,
            cards,
        ) by {
            assert(before[i] == entries[i]);
        }
        assert forall|i: int, j: int| 0 <= i < j < before.len() implies (#[trigger] before[i]).0
            != (#[trigger] before[j]).0 by {
            assert(before[i] == entries[i] && before[j] == entries[j]);
        }
        lemma_table_of_entries(before, cards);
        let table = table_of_entries(entries);
        assert forall|i: int| 0 <= i < entries.len() implies table.contains_key(
            text_key((#[trigger] entries[i]).0),
        ) && table[text_key(entries[i].0)] == entries[i].1 by {
            if i < before.len() {
                assert(before[i] == entries[i]);
                assert(entries[i].0 != entries[entries.len() - 1].0);
                if text_key(entries[i].0) == text_key(last.0) {
                    lemma_text_key_injective(entries[i].0, last.0, cards);
                }
            }
        }
        assert forall|key: u64| #[trigger] table.contains_key(key) implies exists|i: int|
            0 <= i < entries.len() && text_key((#[trigger] entries[i]).0) == key by {
            if key == text_key(last.0) {
                assert(text_key(entries[entries.len() - 1].0) == key);
            } else {
                assert(table_of_entries(before).contains_key(key));
                let i = choose|i: int|
                    0 <= i < before.len() && text_key((#[trigger] before[i]).0) == key;
                assert(before[i] == entries[i]);
            }
        }
    }
}

/// The table made of a list of what a map holds is the keyed table of the map.
pub proof fn lemma_table_of_listed(
    entries: Seq<(String, i32)>,
    map: Map<Seq<char>, i32>,
    cards: nat,
)
    requires
        cards <= 8,
        lists_entries(entries, map),
        forall|i: int| 0 <= i < entries.len() ==> is_hand_text((#[trigger] entries[i]).0@, cards),
    ensures
        table_of_entries(entry_texts(entries)) == keyed_table(map),
        forall|text: Seq<char>| #[trigger] map.contains_key(text) ==> is_hand_text(text, cards),
{
    let texts = entry_texts(entries);
    let table = table_of_entries(texts);
    let keyed = keyed_table(map);
    assert forall|text: Seq<char>| #[trigger] map.contains_key(text) implies is_hand_text(
        text,
        cards,
    ) by {
        let i = choose|i: int| 0 <= i < entries.len() && (#[trigger] entries[i]).0@ == text;
        assert(is_hand_text(entries[i].0@, cards));
    }
    assert forall|i: int| 0 <= i < texts.len() implies is_hand_text((#[trigger] texts[i]).0, cards) by {
        assert(is_hand_text(entries[i].0@, cards));
    }
    assert forall|i: int, j: int| 0 <= i < j < texts.len() implies (#[trigger] texts[i]).0
        != (#[trigger] texts[j]).0 by {
        assert(entries[i].0@ != entries[j].0@);
    }
    lemma_table_of_entries(texts, cards);
    assert forall|key: u64| table.contains_key(key) <==> keyed.contains_key(key) by {
        if table.contains_key(key) {
            let i = choose|i: int| 0 <= i < texts.len() && text_key((#[trigger] texts[i]).0) == key;
            assert(map.contains_key(entries[i].0@));
            assert(texts[i].0 == entries[i].0@);
        }
        if keyed.contains_key(key) {
            let text = choose|text: Seq<char>| #[trigger]
                map.contains_key(text) && text_key(text) == key;
            let i = choose|i: int| 0 <= i < entries.len() && (#[trigger] entries[i]).0@ == text;
            assert(texts[i].0 == text);
            assert(table.contains_key(text_key(texts[i].0)));
        }
    }
    assert forall|key: u64| table.contains_key(key) implies table[key] == keyed[key] by {
        let i = choose|i: int| 0 <= i < texts.len() && text_key((#[trigger] texts[i]).0) == key;
        assert(texts[i].0 == entries[i].0@);
        assert(map.contains_key(entries[i].0@));
        let text = choose|text: Seq<char>| #[trigger]
            map.contains_key(text) && text_key(text) == key;
        assert(is_hand_text(text, cards));
        assert(is_hand_text(entries[i].0@, cards));
        lemma_text_key_injective(text, entries[i].0@, cards);
        assert(table[text_key(texts[i].0)] == texts[i].1);
    }
    assert(table =~= keyed);
}

/// Builds a table from the entries of a dataset: the text of a hand of
/// `cards` cards and a number each.
pub fn keyed_entries(
    entries: &Vec<(String, i32)>,
    cards: usize,
) -> (result: Result<HashMap<u64, i32>, HandError>)
    requires
        cards <= 8,
    ensures
        match result {
            Ok(table) => table@ == table_of_entries(entry_texts(entries@)) && forall|i: int|
                0 <= i < entries@.len() ==> is_hand_text((#[trigger] entries@[i]).0@, cards as nat),
            Err(e) => e == HandError::ParseError && exists|i: int|
                0 <= i < entries@.len() && !is_hand_text((#[trigger] entries@[i]).0@, cards as nat),
        },
{
    broadcast use vstd::std_specs::hash::group_hash_axioms;

    let mut table: HashMap<u64, i32> = HashMap::new();
    let mut i: usize = 0;
    let ghost texts = entry_texts(entries@);
    proof {
        assert(texts.take(0) =~= Seq::<(Seq<char>, i32)>::empty());
    }
    while i < entries.len()
        invariant
            i <= entries@.len(),
            cards <= 8,
            texts == entry_texts(entries@),
            table@ == table_of_entries(texts.take(i as int)),
            forall|j: int| 0 <= j < i ==> is_hand_text((#[trigger] entries@[j]).0@, cards as nat),
        decreases entries@.len() - i,
    {
        let hand = match str2cards(entries[i].0.as_str()) {
            Ok(hand) => hand,
            Err(e) => {
                return Err(e);
            },
        };
        if hand.len() != cards {
            return Err(HandError::ParseError);
        }
        proof {
            lemma_pack_bounds(hand@);
            lemma_slot_range_of_eight();
        }
        let key = match pack(hand.as_slice()) {
            Ok(key) => key,
            Err(_) => {
                return Err(HandError::ParseError);
            },
        };
        table.insert(key, entries[i].1);
        proof {
            assert(texts.take(i + 1).drop_last() =~= texts.take(i as int));
            assert(texts.take(i + 1).last() == texts[i as int]);
        }
        i = i + 1;
    }
    proof {
        assert(texts.take(i as int) =~= texts);
    }
    Ok(table)
}

/// Whether a text is a dataset of hands of `cards` cards: a JSON object that
/// gives an integer to the text of each of some such hands.
pub open spec fn is_dataset(text: Seq<char>, cards: nat) -> bool {
    json_numbers(text) is Some && forall|key: Seq<char>| #[trigger]
        json_numbers(text)->0.contains_key(key) ==> is_hand_text(key, cards)
}

/// Reads a dataset of hands of `cards` cards into a table by the keys of the
/// hands.
pub fn table_from_json(text: &str, cards: usize) -> (result: Result<HashMap<u64, i32>, HandError>)
    requires
        cards <= 8,
    ensures
        match result {
            Ok(table) => is_dataset(text@, cards as nat) && table@ == keyed_table(
                json_numbers(text@)->0,
            ),
            Err(e) => !is_dataset(text@, cards as nat) && e == HandError::ParseError,
        },
{
    let entries = match parse_numbers(text) {
        Ok(entries) => entries,
        Err(_) => {
            return Err(HandError::ParseError);
        },
    };
    match keyed_entries(&entries, cards) {
        Ok(table) => {
            proof {
                lemma_table_of_listed(entries@, json_numbers(text@)->0, cards as nat);
            }
            Ok(table)
        },
        Err(e) => {
            proof {
                let i = choose|i: int|
                    0 <= i < entries@.len() && !is_hand_text(
                        (#[trigger] entries@[i]).0@,
                        cards as nat,
                    );
                assert(json_numbers(text@)->0.contains_key(entries@[i].0@));
            }
            Err(e)
        },
    }
}

/// Whether a text is a dataset of buckets for hands of `cards` cards: a
/// dataset in which no number is negative.
pub open spec fn is_bucket_dataset(text: Seq<char>, cards: nat) -> bool {
    is_dataset(text, cards) && forall|key: Seq<char>| #[trigger]
        json_numbers(text)->0.contains_key(key) ==> json_numbers(text)->0[key] >= 0
}

/// Whether no bucket of the table is negative.
pub open spec fn buckets_not_negative(table: Map<u64, i32>) -> bool {
    forall|key: u64| #[trigger] table.contains_key(key) ==> table[key] >= 0
}

/// Reads a dataset of buckets for hands of `cards` cards into a table by the
/// keys of the hands. A negative bucket is refused like malformed text.
pub fn buckets_from_json(text: &str, cards: usize) -> (result: Result<HashMap<u64, i32>, HandError>)
    requires
        cards <= 8,
    ensures
        match result {
            Ok(table) => is_bucket_dataset(text@, cards as nat) && table@ == keyed_table(
                json_numbers(text@)->0,
            ) && buckets_not_negative(table@),
            Err(e) => !is_bucket_dataset(text@, cards as nat) && e == HandError::ParseError,
        },
{
    let entries = match parse_numbers(text) {
        Ok(entries) => entries,
        Err(_) => {
            return Err(HandError::ParseError);
        },
    };
    let ghost map = json_numbers(text@)->0;
    let mut i: usize = 0;
    while i < entries.len()
        invariant
            i <= entries@.len(),
            json_numbers(text@) is Some,
            map == json_numbers(text@)->0,
            lists_entries(entries@, map),
            forall|j: int| 0 <= j < i ==> (#[trigger] entries@[j]).1 >= 0,
        decreases entries@.len() - i,
    {
        if entries[i].1 < 0 {
            proof {
                let key = entries@[i as int].0@;
                assert(map.contains_key(key) && map[key] == entries@[i as int].1);
            }
            return Err(HandError::ParseError);
        }
        i = i + 1;
    }
    proof {
        assert forall|key: Seq<char>| #[trigger] map.contains_key(key) implies map[key] >= 0 by {
            let j = choose|j: int| 0 <= j < entries@.len() && (#[trigger] entries@[j]).0@ == key;
            assert(entries@[j].1 >= 0);
        }
    }
    match keyed_entries(&entries, cards) {
        Ok(table) => {
            proof {
                lemma_table_of_listed(entries@, map, cards as nat);
                assert forall|key: u64| #[trigger] table@.contains_key(key) implies table@[key]
                    >= 0 by {
                    let text = choose|text: Seq<char>| #[trigger]
                        map.contains_key(text) && text_key(text) == key;
                    assert(map.contains_key(text));
                }
            }
            Ok(table)
        },
        Err(e) => {
            proof {
                let j = choose|j: int|
                    0 <= j < entries@.len() && !is_hand_text(
                        (#[trigger] entries@[j]).0@,
                        cards as nat,
                    );
                assert(map.contains_key(entries@[j].0@));
            }
            Err(e)
        },
    }
}

} // verus!
