//! Equity distributions: for a hand on the flop or the turn, how its equity
//! against each opponent is spread once the board is complete.

use crate::canonical::contains_duplicates;
use crate::card::{all_valid, deck_cards, Card};
use crate::combos::{
    all_combinations, combinations, index_lists, is_combination, lemma_select,
    lists_combinations, pick, select,
};
use crate::equity::{cards_left, cards_without, lemma_cards_without, remaining_deck, Equity};
use crate::error::HandError;
use crate::strength::{lemma_hand_strength_unique, strength_of, table_covers, HandTable};
use vstd::prelude::*;

verus! {

/// The number of bins of a distribution.
pub const EQUITY_BINS: usize = 50;

/// The bin of an equity: the whole part of fifty times the equity, and the
/// last bin for an equity of one. With no trial the equity counts as zero.
pub open spec fn bin_of(equity: Equity) -> int {
    if equity.trials == 0 {
        0
    } else if (25 * equity.points()) / (equity.trials as int) > 49 {
        49
    } else {
        (25 * equity.points()) / (equity.trials as int)
    }
}

/// How often a bin occurs in a list of bins.
pub open spec fn bin_count(bins: Seq<usize>, bin: int) -> int
    decreases bins.len(),
{
    if bins.len() == 0 {
        0
    } else {
        bin_count(bins.drop_last(), bin) + if bins.last() == bin {
            1int
        } else {
            0int
        }
    }
}

/// The number of showdowns that the first hand wins.
pub open spec fn showdown_wins(showdowns: Seq<(i32, i32)>) -> int
    decreases showdowns.len(),
{
    if showdowns.len() == 0 {
        0
    } else {
        showdown_wins(showdowns.drop_last()) + if showdowns.last().0 > showdowns.last().1 {
            1int
        } else {
            0int
        }
    }
}

/// The number of showdowns that end in a tie.
pub open spec fn showdown_ties(showdowns: Seq<(i32, i32)>) -> int
    decreases showdowns.len(),
{
    if showdowns.len() == 0 {
        0
    } else {
        showdown_ties(showdowns.drop_last()) + if showdowns.last().0 == showdowns.last().1 {
            1int
        } else {
            0int
        }
    }
}

/// The outcomes of a list of showdowns.
pub open spec fn showdown_outcomes(showdowns: Seq<(i32, i32)>) -> Equity {
    Equity {
        wins: showdown_wins(showdowns) as u64,
        ties: showdown_ties(showdowns) as u64,
        trials: showdowns.len() as u64,
    }
}

/// Counts the showdowns that the first hand wins and those that are tied.
pub fn tally_showdowns(showdowns: &Vec<(i32, i32)>) -> (equity: Equity)
    ensures
        equity == showdown_outcomes(showdowns@),
        equity.is_valid(),
{
    let mut wins: u64 = 0;
    let mut ties: u64 = 0;
    let mut i: usize = 0;
    proof {
        assert(showdowns@.take(0) =~= Seq::<(i32, i32)>::empty());
    }
    while i < showdowns.len()
        invariant
            i <= showdowns@.len(),
            wins == showdown_wins(showdowns@.take(i as int)),
            ties == showdown_ties(showdowns@.take(i as int)),
            wins + ties <= i,
        decreases showdowns@.len() - i,
    {
        proof {
            assert(showdowns@.take(i + 1).drop_last() =~= showdowns@.take(i as int));
            assert(showdowns@.take(i + 1).last() == showdowns@[i as int]);
        }
        let pair = showdowns[i];
        if pair.0 > pair.1 {
            wins = wins + 1;
        } else if pair.0 == pair.1 {
            ties = ties + 1;
        }
        i = i + 1;
    }
    proof {
        assert(showdowns@.take(i as int) =~= showdowns@);
    }
    Equity { wins, ties, trials: showdowns.len() as u64 }
}

/// The bin of an equity.
pub fn equity_bin(equity: &Equity) -> (bin: usize)
    ensures
        bin == bin_of(*equity),
        bin < EQUITY_BINS,
{
    if equity.trials == 0 {
        return 0;
    }
    let points: u128 = 2 * (equity.wins as u128) + (equity.ties as u128);
    let scaled: u128 = (25 * points) / (equity.trials as u128);
    if scaled > 49 {
        49
    } else {
        scaled as usize
    }
}

/// How often each of the fifty bins occurs.
pub fn histogram(bins: &Vec<usize>) -> (counts: Vec<u64>)
    requires
        forall|i: int| 0 <= i < bins@.len() ==> #[trigger] bins@[i] < EQUITY_BINS,
    ensures
        counts@.len() == EQUITY_BINS,
        forall|bin: int| 0 <= bin < EQUITY_BINS ==> #[trigger] counts@[bin] == bin_count(bins@, bin),
{
    let mut counts: Vec<u64> = Vec::new();
    let mut b: usize = 0;
    while b < EQUITY_BINS
        invariant
            b <= EQUITY_BINS,
            counts@.len() == b,
            forall|bin: int| 0 <= bin < b ==> #[trigger] counts@[bin] == 0,
        decreases EQUITY_BINS - b,
    {
        counts.push(0);
        b = b + 1;
    }
    let mut i: usize = 0;
    proof {
        assert(bins@.take(0) =~= Seq::<usize>::empty());
    }
    while i < bins.len()
        invariant
            i <= bins@.len(),
            counts@.len() == EQUITY_BINS,
            forall|j: int| 0 <= j < bins@.len() ==> #[trigger] bins@[j] < EQUITY_BINS,
            forall|bin: int|
                0 <= bin < EQUITY_BINS ==> #[trigger] counts@[bin] == bin_count(
                    bins@.take(i as int),
                    bin,
                ) && counts@[bin] <= i,
        decreases bins@.len() - i,
    {
        let bin = bins[i];
        proof {
            assert(bins@.take(i + 1).drop_last() =~= bins@.take(i as int));
            assert(bins@.take(i + 1).last() == bins@[i as int]);
        }
        let count = counts[bin];
        counts.set(bin, count + 1);
        i = i + 1;
    }
    proof {
        assert(bins@.take(i as int) =~= bins@);
    }
    counts
}

/// The cards that are neither in the hand nor with the opponent.
pub open spec fn undealt(cards: Seq<Card>, hole: Seq<Card>) -> Seq<Card> {
    cards_without(cards_without(deck_cards(), cards), hole)
}

/// Every way to complete the board, as positions among the undealt cards.
pub open spec fn all_runouts(cards: Seq<Card>, hole: Seq<Card>) -> Seq<Seq<usize>> {
    all_combinations(undealt(cards, hole).len(), (7 - cards.len()) as nat)
}

/// The hand at the river after the picked cards have come.
pub open spec fn final_hand(cards: Seq<Card>, hole: Seq<Card>, picks: Seq<usize>) -> Seq<Card> {
    cards + select(undealt(cards, hole), picks)
}

/// The opponent's hand at the river after the picked cards have come.
pub open spec fn final_opponent(cards: Seq<Card>, hole: Seq<Card>, picks: Seq<usize>) -> Seq<Card> {
    hole + cards.skip(2) + select(undealt(cards, hole), picks)
}

/// The strengths of the two hands in each showdown, one for each way to
/// complete the board.
pub open spec fn rollout_showdowns(table: Map<u64, i32>, cards: Seq<Card>, hole: Seq<Card>) -> Seq<
    (i32, i32),
> {
    let runs = all_runouts(cards, hole);
    Seq::new(
        runs.len(),
        |i: int|
            (
                strength_of(table, final_hand(cards, hole, runs[i])),
                strength_of(table, final_opponent(cards, hole, runs[i])),
            ),
    )
}

/// Whether the table covers both hands of every showdown.
pub open spec fn covers_rollouts(table: Map<u64, i32>, cards: Seq<Card>, hole: Seq<Card>) -> bool {
    forall|picks: Seq<usize>| #[trigger]
        is_combination(picks, undealt(cards, hole).len(), (7 - cards.len()) as nat)
            ==> table_covers(table, final_hand(cards, hole, picks)) && table_covers(
            table,
            final_opponent(cards, hole, picks),
        )
}

/// Laying one hand after another makes no card come twice if none does in
/// either and they share none.
pub proof fn lemma_concat_distinct(a: Seq<Card>, b: Seq<Card>)
    requires
        a.no_duplicates(),
        b.no_duplicates(),
        forall|c: Card| a.contains(c) ==> !b.contains(c),
    ensures
        (a + b).no_duplicates(),
        forall|c: Card| (a + b).contains(c) <==> a.contains(c) || b.contains(c),
{
    let ab = a + b;
    assert forall|i: int, j: int| 0 <= i < ab.len() && 0 <= j < ab.len() && i != j implies ab[i]
        != ab[j] by {
        if i < a.len() && j < a.len() {
            assert(a[i] != a[j]);
        } else if i >= a.len() && j >= a.len() {
            assert(b[i - a.len()] != b[j - a.len()]);
        } else if i < a.len() {
            assert(a.contains(a[i]));
            assert(b.contains(b[j - a.len()]));
        } else {
            assert(a.contains(a[j]));
            assert(b.contains(b[i - a.len()]));
        }
    }
    assert forall|c: Card| ab.contains(c) <==> a.contains(c) || b.contains(c) by {
        if ab.contains(c) {
            let i = choose|i: int| 0 <= i < ab.len() && ab[i] == c;
            if i < a.len() {
                assert(a[i] == c);
            } else {
                assert(b[i - a.len()] == c);
            }
        }
        if a.contains(c) {
            let i = choose|i: int| 0 <= i < a.len() && a[i] == c;
            assert(ab[i] == c);
        }
        if b.contains(c) {
            let i = choose|i: int| 0 <= i < b.len() && b[i] == c;
            assert(ab[a.len() + i] == c);
        }
    }
}

/// The end of a hand holds no card twice if the hand does not, and only cards
/// of the hand.
pub proof fn lemma_skip_distinct(cards: Seq<Card>, from: int)
    requires
        0 <= from <= cards.len(),
    ensures
        cards.no_duplicates() ==> cards.skip(from).no_duplicates(),
        forall|c: Card| cards.skip(from).contains(c) ==> cards.contains(c),
        all_valid(cards) ==> all_valid(cards.skip(from)),
{
    let tail = cards.skip(from);
    assert forall|c: Card| tail.contains(c) implies cards.contains(c) by {
        let i = choose|i: int| 0 <= i < tail.len() && tail[i] == c;
        assert(cards[i + from] == c);
    }
    if cards.no_duplicates() {
        assert forall|i: int, j: int|
            0 <= i < tail.len() && 0 <= j < tail.len() && i != j implies tail[i] != tail[j] by {
            assert(cards[i + from] != cards[j + from]);
        }
    }
    if all_valid(cards) {
        assert forall|i: int| 0 <= i < tail.len() implies (#[trigger] tail[i]).is_valid() by {
            assert(tail[i] == cards[i + from]);
        }
    }
}

/// Hands of deck cards laid end to end are a hand of deck cards.
pub proof fn lemma_concat_valid(a: Seq<Card>, b: Seq<Card>)
    requires
        all_valid(a),
        all_valid(b),
    ensures
        all_valid(a + b),
{
    assert forall|i: int| 0 <= i < (a + b).len() implies (#[trigger] (a + b)[i]).is_valid() by {
        if i < a.len() {
            assert((a + b)[i] == a[i]);
        } else {
            assert((a + b)[i] == b[i - a.len()]);
        }
    }
}

/// One hand after another.
pub fn join(a: &[Card], b: &[Card]) -> (both: Vec<Card>)
    ensures
        both@ == a@ + b@,
{
    let mut both: Vec<Card> = Vec::new();
    let mut i: usize = 0;
    while i < a.len()
        invariant
            i <= a@.len(),
            both@ == a@.take(i as int),
        decreases a@.len() - i,
    {
        both.push(a[i]);
        proof {
            assert(both@ =~= a@.take(i + 1));
        }
        i = i + 1;
    }
    let mut j: usize = 0;
    proof {
        assert(a@.take(i as int) =~= a@);
        assert(both@ =~= a@ + b@.take(0));
    }
    while j < b.len()
        invariant
            j <= b@.len(),
            both@ == a@ + b@.take(j as int),
        decreases b@.len() - j,
    {
        both.push(b[j]);
        proof {
            assert(both@ =~= a@ + b@.take(j + 1));
        }
        j = j + 1;
    }
    proof {
        assert(b@.take(j as int) =~= b@);
    }
    both
}

/// The outcomes of a hand on the flop or the turn against an opponent who
/// holds `hole`, over every way to complete the board.
pub fn rollout_equity(
    table: &HandTable,
    cards: &[Card],
    hole: &[Card],
) -> (result: Result<Equity, HandError>)
    requires
        all_valid(cards@),
        all_valid(hole@),
        5 <= cards@.len() <= 6,
        hole@.len() == 2,
    ensures
        match result {
            Ok(equity) => (cards@ + hole@).no_duplicates() && covers_rollouts(
                table@,
                cards@,
                hole@,
            ) && equity == showdown_outcomes(rollout_showdowns(table@, cards@, hole@))
                && equity.is_valid(),
            Err(e) => if (cards@ + hole@).no_duplicates() {
                e == HandError::DatasetLookupMiss && !covers_rollouts(table@, cards@, hole@)
            } else {
                e == HandError::CanonicalizationInvariantViolation
            },
        },
{
    let dealt = join(cards, hole);
    if contains_duplicates(dealt.as_slice()) {
        return Err(HandError::CanonicalizationInvariantViolation);
    }
    let rest = remaining_deck(cards);
    let left = cards_left(rest.as_slice(), hole);
    let board = join(hole, vstd::slice::slice_subrange(cards, 2, cards.len()));
    proof {
        lemma_cards_without(rest@, hole@);
    }
    let combos = combinations(left.len(), 7 - cards.len());
    let ghost runs = index_lists(combos@);
    let ghost k = (7 - cards@.len()) as nat;
    proof {
        lemma_cards_without(rest@, hole@);
        lemma_skip_distinct(cards@, 2);
        assert(cards@.subrange(2, cards@.len() as int) =~= cards@.skip(2));
        assert(cards@.no_duplicates() && hole@.no_duplicates() && forall|c: Card|
            cards@.contains(c) ==> !hole@.contains(c)) by {
            let both = cards@ + hole@;
            assert forall|i: int, j: int|
                0 <= i < cards@.len() && 0 <= j < cards@.len() && i != j implies cards@[i]
                != cards@[j] by {
                assert(both[i] != both[j]);
            }
            assert forall|i: int, j: int|
                0 <= i < hole@.len() && 0 <= j < hole@.len() && i != j implies hole@[i]
                != hole@[j] by {
                assert(both[cards@.len() + i] != both[cards@.len() + j]);
            }
            assert forall|c: Card| cards@.contains(c) implies !hole@.contains(c) by {
                if hole@.contains(c) {
                    let i = choose|i: int| 0 <= i < cards@.len() && cards@[i] == c;
                    let j = choose|j: int| 0 <= j < hole@.len() && hole@[j] == c;
                    assert(both[i] == both[cards@.len() + j]);
                }
            }
        }
        assert forall|c: Card| hole@.contains(c) implies !cards@.skip(2).contains(c) by {
            if cards@.skip(2).contains(c) {
                assert(cards@.contains(c));
            }
        }
        lemma_concat_distinct(hole@, cards@.skip(2));
        lemma_concat_valid(hole@, cards@.skip(2));
    }
    let mut showdowns: Vec<(i32, i32)> = Vec::new();
    let mut at: usize = 0;
    while at < combos.len()
        invariant
            at <= combos@.len(),
            all_valid(cards@),
            all_valid(hole@),
            5 <= cards@.len() <= 6,
            k == 7 - cards@.len(),
            hole@.len() == 2,
            cards@.no_duplicates(),
            (cards@ + hole@).no_duplicates(),
            left@ == undealt(cards@, hole@),
            all_valid(left@),
            left@.no_duplicates(),
            forall|c: Card| left@.contains(c) ==> !cards@.contains(c) && !hole@.contains(c),
            board@ == hole@ + cards@.skip(2),
            board@.no_duplicates(),
            all_valid(board@),
            forall|c: Card| board@.contains(c) <==> hole@.contains(c) || cards@.skip(2).contains(c),
            forall|c: Card| cards@.skip(2).contains(c) ==> cards@.contains(c),
            runs == index_lists(combos@),
            runs == all_runouts(cards@, hole@),
            lists_combinations(runs, left@.len(), k),
            showdowns@.len() == at,
            forall|i: int|
                0 <= i < at ==> table_covers(
                    table@,
                    final_hand(cards@, hole@, #[trigger] runs[i]),
                ) && table_covers(table@, final_opponent(cards@, hole@, runs[i]))
                    && showdowns@[i].0 == strength_of(
                    table@,
                    final_hand(cards@, hole@, runs[i]),
                ) && showdowns@[i].1 == strength_of(
                    table@,
                    final_opponent(cards@, hole@, runs[i]),
                ),
        decreases combos@.len() - at,
    {
        let ghost picks = runs[at as int];
        proof {
            assert(is_combination(picks, left@.len(), k));
            assert(picks == combos@[at as int]@);
            lemma_select(left@, picks, k);
        }
        let runout = pick(left.as_slice(), &combos[at]);
        let mine = join(cards, runout.as_slice());
        let theirs = join(board.as_slice(), runout.as_slice());
        proof {
            assert forall|c: Card| cards@.contains(c) implies !runout@.contains(c) by {
                if runout@.contains(c) {
                    let i = choose|i: int| 0 <= i < runout@.len() && runout@[i] == c;
                    assert(left@.contains(runout@[i]));
                }
            }
            assert forall|c: Card| board@.contains(c) implies !runout@.contains(c) by {
                if runout@.contains(c) {
                    let i = choose|i: int| 0 <= i < runout@.len() && runout@[i] == c;
                    assert(left@.contains(runout@[i]));
                }
            }
            lemma_concat_distinct(cards@, runout@);
            lemma_concat_distinct(board@, runout@);
            lemma_concat_valid(cards@, runout@);
            lemma_concat_valid(board@, runout@);
            assert(mine@ == final_hand(cards@, hole@, picks));
            assert(theirs@ == final_opponent(cards@, hole@, picks));
        }
        let my_strength = match table.hand_strength(mine.as_slice()) {
            Ok(strength) => strength,
            Err(e) => {
                proof {
                    assert(is_combination(
                        picks,
                        undealt(cards@, hole@).len(),
                        (7 - cards@.len()) as nat,
                    ));
                    assert(!table_covers(table@, final_hand(cards@, hole@, picks)));
                }
                return Err(e);
            },
        };
        let their_strength = match table.hand_strength(theirs.as_slice()) {
            Ok(strength) => strength,
            Err(e) => {
                proof {
                    assert(is_combination(
                        picks,
                        undealt(cards@, hole@).len(),
                        (7 - cards@.len()) as nat,
                    ));
                    assert(!table_covers(table@, final_opponent(cards@, hole@, picks)));
                }
                return Err(e);
            },
        };
        proof {
            lemma_hand_strength_unique(table@, final_hand(cards@, hole@, picks), my_strength);
            lemma_hand_strength_unique(table@, final_opponent(cards@, hole@, picks), their_strength);
        }
        showdowns.push((my_strength, their_strength));
        at = at + 1;
    }
    proof {
        assert(showdowns@ =~= rollout_showdowns(table@, cards@, hole@));
        assert forall|picks: Seq<usize>| #[trigger]
            is_combination(picks, undealt(cards@, hole@).len(), k) implies table_covers(
            table@,
            final_hand(cards@, hole@, picks),
        ) && table_covers(table@, final_opponent(cards@, hole@, picks)) by {
            assert(runs.contains(picks));
            let i = choose|i: int| 0 <= i < runs.len() && runs[i] == picks;
            assert(table_covers(table@, final_hand(cards@, hole@, runs[i])));
        }
    }
    Ok(tally_showdowns(&showdowns))
}

/// The hole cards of every opponent, as positions among the cards that are
/// not in the hand.
pub open spec fn all_holes(cards: Seq<Card>) -> Seq<Seq<usize>> {
    all_combinations(cards_without(deck_cards(), cards).len(), 2)
}

/// The hole cards at the picked positions.
pub open spec fn hole_at(cards: Seq<Card>, picks: Seq<usize>) -> Seq<Card> {
    select(cards_without(deck_cards(), cards), picks)
}

/// The outcomes of the hand against each opponent, over every way to
/// complete the board.
pub open spec fn opponent_outcomes(table: Map<u64, i32>, cards: Seq<Card>) -> Seq<Equity> {
    let holes = all_holes(cards);
    Seq::new(
        holes.len(),
        |i: int| showdown_outcomes(rollout_showdowns(table, cards, hole_at(cards, holes[i]))),
    )
}

/// The bin of the hand's equity against each opponent.
pub open spec fn opponent_bins(table: Map<u64, i32>, cards: Seq<Card>) -> Seq<usize> {
    let outcomes = opponent_outcomes(table, cards);
    Seq::new(outcomes.len(), |i: int| bin_of(outcomes[i]) as usize)
}

/// Whether the table covers every showdown against every opponent.
pub open spec fn covers_distribution(table: Map<u64, i32>, cards: Seq<Card>) -> bool {
    forall|picks: Seq<usize>| #[trigger]
        is_combination(picks, cards_without(deck_cards(), cards).len(), 2) ==> covers_rollouts(
            table,
            cards,
            hole_at(cards, picks),
        )
}

/// The fault that keeps a hand from having a distribution, if there is one.
pub open spec fn distribution_fault(table: Map<u64, i32>, cards: Seq<Card>) -> Option<HandError> {
    if !cards.no_duplicates() {
        Some(HandError::CanonicalizationInvariantViolation)
    } else if !covers_distribution(table, cards) {
        Some(HandError::DatasetLookupMiss)
    } else {
        None
    }
}

/// Whether `counts` is the distribution of the hand.
pub open spec fn is_distribution(table: Map<u64, i32>, cards: Seq<Card>, counts: Seq<u64>) -> bool {
    &&& counts.len() == EQUITY_BINS
    &&& forall|bin: int|
        0 <= bin < EQUITY_BINS ==> #[trigger] counts[bin] == bin_count(
            opponent_bins(table, cards),
            bin,
        )
}

/// The outcomes of a hand on the flop or the turn against each opponent, over
/// every way to complete the board: the equity of the hand against a given
/// opponent is that of its outcomes, and its equity against an opponent yet
/// unknown is the mean of these.
pub fn opponent_equities(
    table: &HandTable,
    cards: &[Card],
) -> (result: Result<Vec<Equity>, HandError>)
    requires
        all_valid(cards@),
        5 <= cards@.len() <= 6,
    ensures
        match result {
            Ok(outcomes) => distribution_fault(table@, cards@) is None && outcomes@
                == opponent_outcomes(table@, cards@) && forall|i: int|
                0 <= i < outcomes@.len() ==> (#[trigger] outcomes@[i]).is_valid(),
            Err(e) => distribution_fault(table@, cards@) == Some(e),
        },
{
    if contains_duplicates(cards) {
        return Err(HandError::CanonicalizationInvariantViolation);
    }
    let rest = remaining_deck(cards);
    let combos = combinations(rest.len(), 2);
    let ghost holes = index_lists(combos@);
    let mut outcomes: Vec<Equity> = Vec::new();
    let mut at: usize = 0;
    while at < combos.len()
        invariant
            at <= combos@.len(),
            all_valid(cards@),
            5 <= cards@.len() <= 6,
            cards@.no_duplicates(),
            rest@ == cards_without(deck_cards(), cards@),
            all_valid(rest@),
            rest@.no_duplicates(),
            forall|c: Card| rest@.contains(c) ==> !cards@.contains(c),
            holes == index_lists(combos@),
            holes == all_holes(cards@),
            lists_combinations(holes, rest@.len(), 2),
            outcomes@.len() == at,
            forall|i: int|
                0 <= i < at ==> covers_rollouts(table@, cards@, hole_at(cards@, #[trigger] holes[i]))
                    && outcomes@[i] == showdown_outcomes(
                    rollout_showdowns(table@, cards@, hole_at(cards@, holes[i])),
                ) && outcomes@[i].is_valid(),
        decreases combos@.len() - at,
    {
        let ghost picks = holes[at as int];
        proof {
            assert(is_combination(picks, rest@.len(), 2));
            assert(picks == combos@[at as int]@);
            lemma_select(rest@, picks, 2);
        }
        let hole = pick(rest.as_slice(), &combos[at]);
        proof {
            assert forall|c: Card| cards@.contains(c) implies !hole@.contains(c) by {
                if hole@.contains(c) {
                    let i = choose|i: int| 0 <= i < hole@.len() && hole@[i] == c;
                    assert(rest@.contains(hole@[i]));
                }
            }
            lemma_concat_distinct(cards@, hole@);
        }
        let equity = match rollout_equity(table, cards, hole.as_slice()) {
            Ok(equity) => equity,
            Err(e) => {
                return Err(e);
            },
        };
        let ghost before = outcomes@;
        outcomes.push(equity);
        proof {
            assert(hole@ == hole_at(cards@, picks));
            assert forall|i: int| 0 <= i < at + 1 implies covers_rollouts(
                table@,
                cards@,
                hole_at(cards@, #[trigger] holes[i]),
            ) && outcomes@[i] == showdown_outcomes(
                rollout_showdowns(table@, cards@, hole_at(cards@, holes[i])),
            ) && outcomes@[i].is_valid() by {
                if i < at {
                    assert(outcomes@[i] == before[i]);
                }
            }
        }
        at = at + 1;
    }
    proof {
        assert(outcomes@ =~= opponent_outcomes(table@, cards@));
        assert forall|picks: Seq<usize>| #[trigger]
            is_combination(picks, rest@.len(), 2) implies covers_rollouts(
            table@,
            cards@,
            hole_at(cards@, picks),
        ) by {
            assert(holes.contains(picks));
            let i = choose|i: int| 0 <= i < holes.len() && holes[i] == picks;
            assert(covers_rollouts(table@, cards@, hole_at(cards@, holes[i])));
        }
    }
    Ok(outcomes)
}

/// The equity distribution of a hand on the flop or the turn: for each of the
/// fifty bins, the number of opponents against whom the hand's equity, over
/// every way to complete the board, falls into the bin.
pub fn equity_distribution(
    table: &HandTable,
    cards: &[Card],
) -> (result: Result<Vec<u64>, HandError>)
    requires
        all_valid(cards@),
        5 <= cards@.len() <= 6,
    ensures
        match result {
            Ok(counts) => distribution_fault(table@, cards@) is None && is_distribution(
                table@,
                cards@,
                counts@,
            ),
            Err(e) => distribution_fault(table@, cards@) == Some(e),
        },
{
    let outcomes = match opponent_equities(table, cards) {
        Ok(outcomes) => outcomes,
        Err(e) => {
            return Err(e);
        },
    };
    let mut bins: Vec<usize> = Vec::new();
    let mut at: usize = 0;
    while at < outcomes.len()
        invariant
            at <= outcomes@.len(),
            bins@.len() == at,
            forall|i: int|
                0 <= i < at ==> #[trigger] bins@[i] == bin_of(outcomes@[i]) && bins@[i]
                    < EQUITY_BINS,
        decreases outcomes@.len() - at,
    {
        bins.push(equity_bin(&outcomes[at]));
        at = at + 1;
    }
    proof {
        assert(bins@ =~= opponent_bins(table@, cards@));
    }
    Ok(histogram(&bins))
}

} // verus!
