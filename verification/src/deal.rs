//! The deal and the scorer.
//!
//! A deal is what one enumeration works on: the hole cards of every player,
//! the known board, the dead cards and the number of board slots that are
//! still open. It decides the deck, the runouts, and the cards that the
//! hand-strength scorer is asked to score.
//!
//! The scorer is the caller's: a function from the cards of one player on one
//! completed board, hole cards first, to a score, higher being stronger.
//! Nothing is assumed of the scores it gives.

use vstd::prelude::*;
use crate::cards::{
    all_cards, lemma_deck_is_the_complement, lemma_deck_size, parse_text, remaining_deck,
    ParseError, DECK_SIZE,
};
use crate::runout::{
    combinations, lemma_combinations_are_combinations, lemma_combinations_ascend, lex_less,
    positions, runouts,
};

verus! {

/// What one enumeration works on: every player's hole cards, the known
/// board, the dead cards, and the number of board slots left to fill.
pub struct Deal {
    /// The hole cards of every player, in the order of the players.
    pub hands: Seq<Seq<usize>>,
    /// The community cards that are known.
    pub known: Seq<usize>,
    /// The cards that are out of play without being in a hand or on the board.
    pub dead: Seq<usize>,
    /// The number of community cards that are still to come.
    pub slots: nat,
}

impl Deal {
    /// The cards that no runout may use: board, hole cards, dead cards.
    pub open spec fn excluded(self) -> Seq<usize> {
        self.known + self.hands.flatten() + self.dead
    }

    /// The cards that runouts are drawn from.
    pub open spec fn deck(self) -> Seq<usize> {
        remaining_deck(self.excluded())
    }

    /// Every runout, in the order of enumeration.
    pub open spec fn runouts(self) -> Seq<Seq<usize>> {
        runouts(self.deck(), self.slots)
    }

    /// The completed board number `b`: the known cards, then the runout.
    pub open spec fn board(self, b: int) -> Seq<usize> {
        self.known + self.runouts()[b]
    }

    /// The cards handed to the scorer for player `p` on board `b`: the hole
    /// cards, then the board.
    pub open spec fn asked(self, p: int, b: int) -> Seq<usize> {
        self.hands[p] + self.board(b)
    }

    /// The scorer may be called on everything this deal asks of it.
    pub open spec fn scorable_by<F: Fn(&[usize]) -> u16>(self, scorer: F) -> bool {
        forall|p: int, b: int|
            0 <= p < self.hands.len() && 0 <= b < self.runouts().len() ==> can_score(
                scorer,
                #[trigger] self.asked(p, b),
            )
    }

    /// `scores` are scores the scorer can have given on board `b`: one per
    /// player, each for that player's cards on that board.
    pub open spec fn board_scored_by<F: Fn(&[usize]) -> u16>(
        self,
        scorer: F,
        b: int,
        scores: Seq<u16>,
    ) -> bool {
        &&& scores.len() == self.hands.len()
        &&& forall|p: int|
            0 <= p < self.hands.len() ==> is_score_of(
                scorer,
                self.asked(p, b),
                #[trigger] scores[p],
            )
    }

    /// `rows` is a table the scorer can have given for this deal: one row
    /// per board, in the order of enumeration.
    pub open spec fn scored_by<F: Fn(&[usize]) -> u16>(
        self,
        scorer: F,
        rows: Seq<Seq<u16>>,
    ) -> bool {
        &&& rows.len() == self.runouts().len()
        &&& forall|b: int|
            0 <= b < rows.len() ==> self.board_scored_by(scorer, b, #[trigger] rows[b])
    }
}

/// The scorer may be called on `cards`.
pub open spec fn can_score<F: Fn(&[usize]) -> u16>(scorer: F, cards: Seq<usize>) -> bool {
    forall|c: &[usize]| c@ == cards ==> #[trigger] call_requires(scorer, (c,))
}

/// `score` is a score that the scorer can give to `cards`.
pub open spec fn is_score_of<F: Fn(&[usize]) -> u16>(
    scorer: F,
    cards: Seq<usize>,
    score: u16,
) -> bool {
    exists|c: &[usize]| c@ == cards && #[trigger] call_ensures(scorer, (c,), score)
}

/// The scorer gives every list of cards one score only.
pub open spec fn gives_one_score<F: Fn(&[usize]) -> u16>(scorer: F) -> bool {
    forall|cards: Seq<usize>, s: u16, t: u16|
        #![trigger is_score_of(scorer, cards, s), is_score_of(scorer, cards, t)]
        is_score_of(scorer, cards, s) && is_score_of(scorer, cards, t) ==> s == t
}

/// The first `n` hands, each parsed; the first hand that does not parse
/// stops the reading with its error.
pub open spec fn parse_hands(texts: Seq<Seq<char>>, n: nat) -> Result<Seq<Seq<usize>>, ParseError>
    decreases n,
{
    if n == 0 {
        Ok(Seq::empty())
    } else {
        match parse_hands(texts, (n - 1) as nat) {
            Err(e) => Err(e),
            Ok(hands) => match parse_text(texts[n - 1]) {
                Err(e) => Err(e),
                Ok(ids) => Ok(hands.push(ids)),
            },
        }
    }
}

/// The deal that the inputs describe. The hands are read first, in order,
/// then the board, then the dead cards; the first that does not parse gives
/// the error.
pub open spec fn deal_of(
    hands: Seq<Seq<char>>,
    board: Seq<char>,
    dead: Seq<char>,
    slots: nat,
) -> Result<Deal, ParseError> {
    match parse_hands(hands, hands.len()) {
        Err(e) => Err(e),
        Ok(hands) => match parse_text(board) {
            Err(e) => Err(e),
            Ok(known) => match parse_text(dead) {
                Err(e) => Err(e),
                Ok(dead) => Ok(Deal { hands, known, dead, slots }),
            },
        },
    }
}

/// Once the first `n` hands have failed, reading further hands fails the
/// same way.
pub proof fn lemma_hand_error_is_kept(texts: Seq<Seq<char>>, n: nat, m: nat)
    requires
        n <= m,
        parse_hands(texts, n) is Err,
    ensures
        parse_hands(texts, m) == parse_hands(texts, n),
    decreases m,
{
    if n < m {
        lemma_hand_error_is_kept(texts, n, (m - 1) as nat);
    }
}

/// As many hands are read as were given.
pub proof fn lemma_hands_read(texts: Seq<Seq<char>>, n: nat)
    requires
        parse_hands(texts, n) is Ok,
    ensures
        parse_hands(texts, n)->Ok_0.len() == n,
    decreases n,
{
    if n > 0 {
        lemma_hands_read(texts, (n - 1) as nat);
    }
}

/// Hands of two cards each hold twice as many cards as there are players.
proof fn lemma_cards_in_hands(hands: Seq<Seq<usize>>)
    requires
        forall|p: int| 0 <= p < hands.len() ==> (#[trigger] hands[p]).len() == 2,
    ensures
        hands.flatten().len() == 2 * hands.len(),
    decreases hands.len(),
{
    if hands.len() > 0 {
        assert forall|p: int| 0 <= p < hands.drop_first().len() implies (
        #[trigger] hands.drop_first()[p]).len() == 2 by {
            assert(hands.drop_first()[p] == hands[p + 1]);
        }
        lemma_cards_in_hands(hands.drop_first());
    }
}

/// Where every player holds two cards and no card is used twice, the deck
/// holds the 52 cards less two for each player, the known board and the dead
/// cards.
pub proof fn lemma_deck_size_of_deal(deal: Deal)
    requires
        all_cards(deal.excluded()),
        deal.excluded().no_duplicates(),
        forall|p: int| 0 <= p < deal.hands.len() ==> (#[trigger] deal.hands[p]).len() == 2,
    ensures
        deal.deck().len() == DECK_SIZE - (2 * deal.hands.len() + deal.known.len()
            + deal.dead.len()),
{
    lemma_cards_in_hands(deal.hands);
    lemma_deck_size(deal.excluded());
}

/// No runout uses a card that is excluded, and every runout holds `slots`
/// cards of the deck.
pub proof fn lemma_runouts_avoid_excluded(deal: Deal, b: int, j: int)
    requires
        0 <= b < deal.runouts().len(),
        0 <= j < deal.slots,
    ensures
        deal.runouts()[b].len() == deal.slots,
        deal.deck().contains(deal.runouts()[b][j]),
        !deal.excluded().contains(deal.runouts()[b][j]),
        deal.runouts()[b][j] < DECK_SIZE,
{
    lemma_combinations_are_combinations(deal.deck().len(), deal.slots, b);
    lemma_deck_is_the_complement(deal.excluded());
    let c = combinations(deal.deck().len(), deal.slots)[b];
    assert(deal.runouts()[b][j] == deal.deck()[c[j]]);
}

/// The runouts come in ascending order: every runout lists its cards lowest
/// first, and a later runout is greater in lexicographic order of its cards.
pub proof fn lemma_runouts_ascend(deal: Deal, b: int, c: int)
    requires
        0 <= b < c < deal.runouts().len(),
    ensures
        forall|i: int, j: int|
            0 <= i < j < deal.slots ==> deal.runouts()[b][i] < deal.runouts()[b][j],
        lex_less(positions(deal.runouts()[b]), positions(deal.runouts()[c])),
{
    let deck = deal.deck();
    let first = combinations(deck.len(), deal.slots)[b];
    let second = combinations(deck.len(), deal.slots)[c];
    lemma_deck_is_the_complement(deal.excluded());
    lemma_combinations_are_combinations(deck.len(), deal.slots, b);
    lemma_combinations_are_combinations(deck.len(), deal.slots, c);
    lemma_combinations_ascend(deck.len(), deal.slots, b, c);
    assert forall|i: int, j: int| 0 <= i < j < deal.slots implies deal.runouts()[b][i]
        < deal.runouts()[b][j] by {
        assert(first[i] < first[j]);
    }
    let at = choose|i: int|
        0 <= i < first.len() && i < second.len() && #[trigger] first[i] < second[i] && first.take(
            i,
        ) == second.take(i);
    let low = positions(deal.runouts()[b]);
    let high = positions(deal.runouts()[c]);
    assert(low[at] < high[at]) by {
        assert(deck[first[at]] < deck[second[at]]);
    }
    assert(low.take(at) =~= high.take(at)) by {
        assert forall|i: int| 0 <= i < at implies low[i] == high[i] by {
            assert(first.take(at)[i] == second.take(at)[i]);
        }
    }
}

} // verus!
