//! The ways to pick `k` of `n` cards.

use crate::card::{all_valid, Card};
use itertools::Itertools;
use vstd::prelude::*;

verus! {

/// Whether `picks` names `k` positions below `n`, each once, lowest first.
pub open spec fn is_combination(picks: Seq<usize>, n: nat, k: nat) -> bool {
    &&& picks.len() == k
    &&& forall|i: int| 0 <= i < picks.len() ==> #[trigger] picks[i] < n
    &&& forall|i: int, j: int| 0 <= i < j < picks.len() ==> #[trigger] picks[i] < #[trigger] picks[j]
}

/// Whether `a` comes before `b` in the dictionary: at the first position where
/// they differ, `a` names the lower position.
pub open spec fn combination_lt(a: Seq<usize>, b: Seq<usize>) -> bool {
    exists|p: int|
        #![trigger a[p]]
        0 <= p < a.len() && p < b.len() && a[p] < b[p] && forall|q: int|
            0 <= q < p ==> #[trigger] a[q] == b[q]
}

/// Whether `list` holds every way to pick `k` of `n` positions, once each, in
/// the order of the dictionary.
pub open spec fn lists_combinations(list: Seq<Seq<usize>>, n: nat, k: nat) -> bool {
    &&& forall|i: int| 0 <= i < list.len() ==> is_combination(#[trigger] list[i], n, k)
    &&& forall|picks: Seq<usize>| #[trigger] is_combination(picks, n, k) ==> list.contains(picks)
    &&& forall|i: int, j: int|
        0 <= i < j < list.len() ==> combination_lt(#[trigger] list[i], #[trigger] list[j])
}

/// The position lists that a vector of vectors holds.
pub open spec fn index_lists(lists: Seq<Vec<usize>>) -> Seq<Seq<usize>> {
    Seq::new(lists.len(), |i: int| lists[i]@)
}

/// The cards at the picked positions.
pub open spec fn select(cards: Seq<Card>, picks: Seq<usize>) -> Seq<Card> {
    Seq::new(picks.len(), |i: int| cards[picks[i] as int])
}

/// The most cards to pick from.
pub const MAX_POOL: usize = 52;

/// The most cards to pick at once.
pub const MAX_PICKS: usize = 5;

/// All ways to pick `k` of the positions `0..n`, from `Itertools::combinations`
/// on that range. The contract is what the crate documents of the adaptor:
/// each item holds `k` positions in rising order, every such choice is
/// yielded, and the items come in the order of the dictionary, so none comes
/// twice. The bounds keep the list, which is held in memory as a whole, to a
/// few million items.
#[verifier::external_body]
fn index_combinations(n: usize, k: usize) -> (combos: Vec<Vec<usize>>)
    requires
        n <= MAX_POOL,
        k <= MAX_PICKS,
    ensures
        lists_combinations(index_lists(combos@), n as nat, k as nat),
{
    (0..n).combinations(k).collect()
}

/// The cards at the picked positions.
pub fn pick(cards: &[Card], picks: &Vec<usize>) -> (picked: Vec<Card>)
    requires
        forall|i: int| 0 <= i < picks@.len() ==> #[trigger] picks@[i] < cards@.len(),
    ensures
        picked@ == select(cards@, picks@),
{
    let mut picked: Vec<Card> = Vec::new();
    let mut i: usize = 0;
    while i < picks.len()
        invariant
            i <= picks@.len(),
            picked@.len() == i,
            forall|j: int| 0 <= j < picks@.len() ==> #[trigger] picks@[j] < cards@.len(),
            forall|j: int| 0 <= j < i ==> picked@[j] == cards@[picks@[j] as int],
        decreases picks@.len() - i,
    {
        picked.push(cards[picks[i]]);
        i = i + 1;
    }
    proof {
        assert(picked@ =~= select(cards@, picks@));
    }
    picked
}

/// Cards picked from a hand are cards of the hand; picked from deck cards they
/// are deck cards, and no card comes twice unless it did in the hand.
pub proof fn lemma_select(cards: Seq<Card>, picks: Seq<usize>, k: nat)
    requires
        is_combination(picks, cards.len(), k),
    ensures
        select(cards, picks).len() == k,
        all_valid(cards) ==> all_valid(select(cards, picks)),
        cards.no_duplicates() ==> select(cards, picks).no_duplicates(),
        forall|i: int| 0 <= i < k ==> cards.contains(#[trigger] select(cards, picks)[i]),
{
    let picked = select(cards, picks);
    assert forall|i: int| 0 <= i < k implies cards.contains(#[trigger] picked[i]) by {
        assert(picks[i] < cards.len());
        assert(cards[picks[i] as int] == picked[i]);
    }
    if all_valid(cards) {
        assert forall|i: int| 0 <= i < picked.len() implies (#[trigger] picked[i]).is_valid() by {
            assert(picks[i] < cards.len());
            assert(cards[picks[i] as int].is_valid());
        }
    }
    if cards.no_duplicates() {
        assert forall|i: int, j: int|
            0 <= i < picked.len() && 0 <= j < picked.len() && i != j implies picked[i]
            != picked[j] by {
            assert(picks[i] < cards.len() && picks[j] < cards.len());
            if i < j {
                assert(picks[i] < picks[j]);
            } else {
                assert(picks[j] < picks[i]);
            }
        }
    }
}

/// No list of positions comes before itself, and of two lists at most one
/// comes before the other.
pub proof fn lemma_combination_lt(a: Seq<usize>, b: Seq<usize>)
    ensures
        !combination_lt(a, a),
        combination_lt(a, b) ==> !combination_lt(b, a),
{
    if combination_lt(a, b) && combination_lt(b, a) {
        let p = choose|p: int|
            #![trigger a[p]]
            0 <= p < a.len() && p < b.len() && a[p] < b[p] && forall|q: int|
                0 <= q < p ==> #[trigger] a[q] == b[q];
        let r = choose|r: int|
            #![trigger b[r]]
            0 <= r < b.len() && r < a.len() && b[r] < a[r] && forall|q: int|
                0 <= q < r ==> #[trigger] b[q] == a[q];
        if p < r {
            assert(b[p] == a[p]);
        } else if r < p {
            assert(a[r] == b[r]);
        }
    }
}

/// Whether the lists of positions come one after the other in the order of
/// the dictionary.
pub open spec fn combinations_rise(list: Seq<Seq<usize>>) -> bool {
    forall|i: int, j: int|
        0 <= i < j < list.len() ==> combination_lt(#[trigger] list[i], #[trigger] list[j])
}

/// Two rising lists that hold the same lists of positions are the same list.
pub proof fn lemma_rising_lists_equal(a: Seq<Seq<usize>>, b: Seq<Seq<usize>>)
    requires
        combinations_rise(a),
        combinations_rise(b),
        forall|picks: Seq<usize>| a.contains(picks) <==> b.contains(picks),
    ensures
        a == b,
    decreases a.len(),
{
    if a.len() == 0 {
        if b.len() > 0 {
            assert(b.contains(b[0]));
            assert(a.contains(b[0]));
        }
        assert(a =~= b);
    } else {
        assert(a.contains(a[0]));
        assert(b.contains(a[0]));
        let j = choose|j: int| 0 <= j < b.len() && b[j] == a[0];
        assert(b.contains(b[0]));
        assert(a.contains(b[0]));
        let i = choose|i: int| 0 <= i < a.len() && a[i] == b[0];
        lemma_combination_lt(a[0], b[0]);
        lemma_combination_lt(b[0], a[0]);
        if i > 0 {
            assert(combination_lt(a[0], a[i]));
        }
        if j > 0 {
            assert(combination_lt(b[0], b[j]));
        }
        assert(a[0] == b[0]);
        let a_rest = a.drop_first();
        let b_rest = b.drop_first();
        assert(combinations_rise(a_rest)) by {
            assert forall|i: int, j: int| 0 <= i < j < a_rest.len() implies combination_lt(
                #[trigger] a_rest[i],
                #[trigger] a_rest[j],
            ) by {
                assert(combination_lt(a[i + 1], a[j + 1]));
            }
        }
        assert(combinations_rise(b_rest)) by {
            assert forall|i: int, j: int| 0 <= i < j < b_rest.len() implies combination_lt(
                #[trigger] b_rest[i],
                #[trigger] b_rest[j],
            ) by {
                assert(combination_lt(b[i + 1], b[j + 1]));
            }
        }
        assert forall|picks: Seq<usize>| a_rest.contains(picks) <==> b_rest.contains(picks) by {
            lemma_combination_lt(a[0], picks);
            if a_rest.contains(picks) {
                let k = choose|k: int| 0 <= k < a_rest.len() && a_rest[k] == picks;
                assert(a[k + 1] == picks);
                assert(combination_lt(a[0], a[k + 1]));
                assert(a.contains(picks));
                assert(b.contains(picks));
                let m = choose|m: int| 0 <= m < b.len() && b[m] == picks;
                assert(m > 0);
                assert(b_rest[m - 1] == picks);
            }
            if b_rest.contains(picks) {
                let k = choose|k: int| 0 <= k < b_rest.len() && b_rest[k] == picks;
                assert(b[k + 1] == picks);
                assert(combination_lt(b[0], b[k + 1]));
                assert(b.contains(picks));
                assert(a.contains(picks));
                let m = choose|m: int| 0 <= m < a.len() && a[m] == picks;
                assert(m > 0);
                assert(a_rest[m - 1] == picks);
            }
        }
        lemma_rising_lists_equal(a_rest, b_rest);
        assert(a =~= seq![a[0]] + a_rest);
        assert(b =~= seq![b[0]] + b_rest);
    }
}

/// The list of all ways to pick `k` of `n` positions, in the order of the
/// dictionary.
pub open spec fn all_combinations(n: nat, k: nat) -> Seq<Seq<usize>> {
    choose|list: Seq<Seq<usize>>| lists_combinations(list, n, k)
}

/// There is one list of all ways to pick `k` of `n` positions in the order of
/// the dictionary.
pub proof fn lemma_combinations_unique(list: Seq<Seq<usize>>, n: nat, k: nat)
    requires
        lists_combinations(list, n, k),
    ensures
        list == all_combinations(n, k),
{
    let other = all_combinations(n, k);
    assert(lists_combinations(other, n, k));
    assert forall|picks: Seq<usize>| list.contains(picks) <==> other.contains(picks) by {
        if list.contains(picks) {
            let i = choose|i: int| 0 <= i < list.len() && list[i] == picks;
            assert(is_combination(list[i], n, k));
        }
        if other.contains(picks) {
            let i = choose|i: int| 0 <= i < other.len() && other[i] == picks;
            assert(is_combination(other[i], n, k));
        }
    }
    lemma_rising_lists_equal(list, other);
}

/// All ways to pick `k` of `n` cards, as lists of positions in the order of
/// the dictionary.
pub fn combinations(n: usize, k: usize) -> (combos: Vec<Vec<usize>>)
    requires
        n <= MAX_POOL,
        k <= MAX_PICKS,
    ensures
        index_lists(combos@) == all_combinations(n as nat, k as nat),
        lists_combinations(index_lists(combos@), n as nat, k as nat),
{
    let combos = index_combinations(n, k);
    proof {
        lemma_combinations_unique(index_lists(combos@), n as nat, k as nat);
    }
    combos
}

} // verus!
