//! The result assembler.
//!
//! For every player the report holds the hand as it was given, the boards
//! won, lost and tied out of the boards enumerated, and, only for a player who
//! wins fewer than half of the boards, the outs: the runouts that make that
//! player the only winner, in card notation and in the order of enumeration.

use vstd::prelude::*;
use vstd::string::*;
use crate::cards::{all_cards, card_id_to_string, card_text};
use crate::outcome::{
    lemma_count_of_next_row, lemma_count_of_no_rows, outcome_count, outcome_of, Outcome,
};

verus! {

/// A share of the enumerated boards, as the fraction `num / den`.
#[derive(Clone, Copy, Debug, PartialEq, Eq, Structural)]
pub struct Rate {
    pub num: u32,
    pub den: u32,
}

/// The rate of `count` boards out of `boards`; with no boards at all the
/// rate is zero.
pub open spec fn rate_of(count: nat, boards: nat) -> (nat, nat) {
    if boards == 0 {
        (0, 1)
    } else {
        (count, boards)
    }
}

/// What an enumeration found for one player.
#[derive(Clone, Debug, PartialEq, Eq)]
pub struct PlayerEquity {
    /// The player's hand, as it was given.
    pub hand: String,
    /// The boards that the player wins alone.
    pub wins: u32,
    /// The boards on which another player is stronger.
    pub losses: u32,
    /// The boards on which the player shares the highest score.
    pub ties: u32,
    /// The boards enumerated.
    pub boards: u32,
    /// The runouts that make the player the only winner, each in card
    /// notation and in the order of enumeration. Present exactly for a player
    /// who wins fewer than half of the boards.
    pub outs: Option<Vec<Vec<String>>>,
}

/// The mathematical content of a `PlayerEquity`.
pub struct PlayerEquityView {
    pub hand: Seq<char>,
    pub wins: nat,
    pub losses: nat,
    pub ties: nat,
    pub boards: nat,
    pub outs: Option<Seq<Seq<Seq<char>>>>,
}

impl View for PlayerEquity {
    type V = PlayerEquityView;

    open spec fn view(&self) -> PlayerEquityView {
        PlayerEquityView {
            hand: self.hand@,
            wins: self.wins as nat,
            losses: self.losses as nat,
            ties: self.ties as nat,
            boards: self.boards as nat,
            outs: match self.outs {
                None => None,
                Some(outs) => Some(outs.deep_view()),
            },
        }
    }
}

impl DeepView for PlayerEquity {
    type V = PlayerEquityView;

    open spec fn deep_view(&self) -> PlayerEquityView {
        self@
    }
}

impl PlayerEquity {
    /// The share of boards that the player wins alone.
    pub fn win_rate(&self) -> (r: Rate)
        ensures
            (r.num as nat, r.den as nat) == rate_of(self.wins as nat, self.boards as nat),
    {
        rate(self.wins, self.boards)
    }

    /// The share of boards that the player loses.
    pub fn lose_rate(&self) -> (r: Rate)
        ensures
            (r.num as nat, r.den as nat) == rate_of(self.losses as nat, self.boards as nat),
    {
        rate(self.losses, self.boards)
    }

    /// The share of boards that the player ties.
    pub fn tie_rate(&self) -> (r: Rate)
        ensures
            (r.num as nat, r.den as nat) == rate_of(self.ties as nat, self.boards as nat),
    {
        rate(self.ties, self.boards)
    }
}

/// The rate of `count` boards out of `boards`: `count / boards`, and zero
/// where there are no boards.
pub fn rate(count: u32, boards: u32) -> (r: Rate)
    ensures
        (r.num as nat, r.den as nat) == rate_of(count as nat, boards as nat),
        r.den > 0,
{
    if boards == 0 {
        Rate { num: 0, den: 1 }
    } else {
        Rate { num: count, den: boards }
    }
}

/// The runouts that make player `p` the only winner, in the order of
/// enumeration. Row `b` of `rows` scores board `b`.
pub open spec fn winning_runouts(
    runouts: Seq<Seq<usize>>,
    rows: Seq<Seq<u16>>,
    p: int,
) -> Seq<Seq<usize>>
    decreases rows.len(),
{
    if rows.len() == 0 {
        Seq::empty()
    } else {
        let earlier = winning_runouts(runouts, rows.drop_last(), p);
        if outcome_of(rows.last(), p) == Outcome::Win {
            earlier.push(runouts[rows.len() - 1])
        } else {
            earlier
        }
    }
}

/// A runout in card notation.
pub open spec fn runout_text(runout: Seq<usize>) -> Seq<Seq<char>> {
    runout.map_values(|c: usize| card_text(c as int))
}

/// A list of runouts in card notation.
pub open spec fn outs_text(outs: Seq<Seq<usize>>) -> Seq<Seq<Seq<char>>> {
    outs.map_values(|r: Seq<usize>| runout_text(r))
}

/// Whether the outs of a player are reported: only for a player who wins
/// fewer than half of the boards. With no boards nothing is reported.
pub open spec fn reports_outs(wins: nat, boards: nat) -> bool {
    2 * wins < boards
}

/// What is reported for player `p` whose hand was given as `hand`, once the
/// boards of `runouts` have been scored as `rows`.
pub open spec fn player_equity(
    hand: Seq<char>,
    runouts: Seq<Seq<usize>>,
    rows: Seq<Seq<u16>>,
    p: int,
) -> PlayerEquityView {
    PlayerEquityView {
        hand,
        wins: outcome_count(rows, p, Outcome::Win),
        losses: outcome_count(rows, p, Outcome::Loss),
        ties: outcome_count(rows, p, Outcome::Tie),
        boards: rows.len(),
        outs: if reports_outs(outcome_count(rows, p, Outcome::Win), rows.len()) {
            Some(outs_text(winning_runouts(runouts, rows, p)))
        } else {
            None
        },
    }
}

/// What is reported for all the players, in the order of the hands.
pub open spec fn equity_table(
    hands: Seq<Seq<char>>,
    runouts: Seq<Seq<usize>>,
    rows: Seq<Seq<u16>>,
) -> Seq<PlayerEquityView> {
    Seq::new(hands.len(), |p: int| player_equity(hands[p], runouts, rows, p))
}

/// Writes a runout in card notation, card by card.
pub fn format_runout(runout: &[usize]) -> (text: Vec<String>)
    requires
        all_cards(runout@),
    ensures
        text.deep_view() == runout_text(runout@),
{
    let mut text: Vec<String> = Vec::new();
    let mut i: usize = 0;
    while i < runout.len()
        invariant
            i <= runout.len(),
            all_cards(runout@),
            text.len() == i,
            forall|j: int| 0 <= j < i ==> (#[trigger] text[j])@ == card_text(runout[j] as int),
        decreases runout.len() - i,
    {
        text.push(card_id_to_string(runout[i]));
        i += 1;
    }
    proof {
        assert(text.deep_view() =~= runout_text(runout@));
    }
    text
}

/// Writes a list of runouts in card notation.
pub fn format_outs(outs: &[Vec<usize>]) -> (text: Vec<Vec<String>>)
    requires
        forall|i: int| 0 <= i < outs.len() ==> all_cards(#[trigger] outs[i]@),
    ensures
        text.deep_view() == outs_text(outs.deep_view()),
{
    let mut text: Vec<Vec<String>> = Vec::new();
    let mut i: usize = 0;
    while i < outs.len()
        invariant
            i <= outs.len(),
            forall|i: int| 0 <= i < outs.len() ==> all_cards(#[trigger] outs[i]@),
            text.len() == i,
            forall|j: int|
                0 <= j < i ==> (#[trigger] text[j]).deep_view() == runout_text(outs[j]@),
        decreases outs.len() - i,
    {
        text.push(format_runout(outs[i].as_slice()));
        i += 1;
    }
    proof {
        assert forall|j: int| 0 <= j < outs.len() implies #[trigger] text.deep_view()[j]
            == outs_text(outs.deep_view())[j] by {
            assert(outs.deep_view()[j] =~= outs[j]@);
        }
        assert(text.deep_view() =~= outs_text(outs.deep_view()));
    }
    text
}

/// Packages what was counted and collected into one record per player, in
/// the order of the hands. The outs of a player are written out, in card
/// notation, only where the player wins fewer than half of the boards.
pub fn assemble(
    player_hands: &[String],
    wins: &[u32],
    losses: &[u32],
    ties: &[u32],
    boards: u32,
    outs: &[Vec<Vec<usize>>],
) -> (table: Vec<PlayerEquity>)
    requires
        wins.len() == player_hands.len(),
        losses.len() == player_hands.len(),
        ties.len() == player_hands.len(),
        outs.len() == player_hands.len(),
        forall|p: int, i: int|
            0 <= p < outs.len() && 0 <= i < outs[p].len() ==> all_cards(#[trigger] outs[p][i]@),
    ensures
        table.len() == player_hands.len(),
        forall|p: int|
            0 <= p < player_hands.len() ==> (#[trigger] table[p])@ == (PlayerEquityView {
                hand: player_hands[p]@,
                wins: wins[p] as nat,
                losses: losses[p] as nat,
                ties: ties[p] as nat,
                boards: boards as nat,
                outs: if reports_outs(wins[p] as nat, boards as nat) {
                    Some(outs_text(outs[p].deep_view()))
                } else {
                    None
                },
            }),
{
    let mut table: Vec<PlayerEquity> = Vec::new();
    let mut p: usize = 0;
    while p < player_hands.len()
        invariant
            p <= player_hands.len(),
            wins.len() == player_hands.len(),
            losses.len() == player_hands.len(),
            ties.len() == player_hands.len(),
            outs.len() == player_hands.len(),
            forall|p: int, i: int|
                0 <= p < outs.len() && 0 <= i < outs[p].len() ==> all_cards(
                    #[trigger] outs[p][i]@,
                ),
            table.len() == p,
            forall|q: int|
                0 <= q < p ==> (#[trigger] table[q])@ == (PlayerEquityView {
                    hand: player_hands[q]@,
                    wins: wins[q] as nat,
                    losses: losses[q] as nat,
                    ties: ties[q] as nat,
                    boards: boards as nat,
                    outs: if reports_outs(wins[q] as nat, boards as nat) {
                        Some(outs_text(outs[q].deep_view()))
                    } else {
                        None
                    },
                }),
        decreases player_hands.len() - p,
    {
        let shown: Option<Vec<Vec<String>>> = if 2 * (wins[p] as u64) < boards as u64 {
            Some(format_outs(outs[p].as_slice()))
        } else {
            None
        };
        table.push(
            PlayerEquity {
                hand: player_hands[p].clone(),
                wins: wins[p],
                losses: losses[p],
                ties: ties[p],
                boards,
                outs: shown,
            },
        );
        p += 1;
    }
    table
}

/// Every winning runout is the runout of a board that the player wins alone.
pub proof fn lemma_outs_are_sole_wins(
    runouts: Seq<Seq<usize>>,
    rows: Seq<Seq<u16>>,
    p: int,
    i: int,
)
    requires
        0 <= i < winning_runouts(runouts, rows, p).len(),
    ensures
        exists|b: int|
            0 <= b < rows.len() && runouts[b] == winning_runouts(runouts, rows, p)[i]
                && outcome_of(#[trigger] rows[b], p) == Outcome::Win,
    decreases rows.len(),
{
    let earlier = winning_runouts(runouts, rows.drop_last(), p);
    if i < earlier.len() {
        lemma_outs_are_sole_wins(runouts, rows.drop_last(), p, i);
        let b = choose|b: int|
            0 <= b < rows.drop_last().len() && runouts[b] == earlier[i] && outcome_of(
                #[trigger] rows.drop_last()[b],
                p,
            ) == Outcome::Win;
        assert(rows[b] == rows.drop_last()[b]);
    } else {
        assert(outcome_of(rows[rows.len() - 1], p) == Outcome::Win);
    }
}

/// Every board that a player wins alone has its runout among the player's
/// winning runouts.
pub proof fn lemma_sole_wins_are_outs(
    runouts: Seq<Seq<usize>>,
    rows: Seq<Seq<u16>>,
    p: int,
    b: int,
)
    requires
        0 <= b < rows.len(),
        outcome_of(rows[b], p) == Outcome::Win,
    ensures
        winning_runouts(runouts, rows, p).contains(runouts[b]),
    decreases rows.len(),
{
    let won = winning_runouts(runouts, rows, p);
    let earlier = winning_runouts(runouts, rows.drop_last(), p);
    if b == rows.len() - 1 {
        assert(won[won.len() - 1] == runouts[b]);
    } else {
        assert(rows.drop_last()[b] == rows[b]);
        lemma_sole_wins_are_outs(runouts, rows.drop_last(), p, b);
        let i = choose|i: int| 0 <= i < earlier.len() && earlier[i] == runouts[b];
        assert(won[i] == runouts[b]);
    }
}

/// A player has as many winning runouts as wins.
pub proof fn lemma_outs_count_is_wins(runouts: Seq<Seq<usize>>, rows: Seq<Seq<u16>>, p: int)
    requires
        0 <= p,
        forall|r: int| 0 <= r < rows.len() ==> p < (#[trigger] rows[r]).len(),
    ensures
        winning_runouts(runouts, rows, p).len() == outcome_count(rows, p, Outcome::Win),
    decreases rows.len(),
{
    if rows.len() == 0 {
        assert(rows =~= Seq::<Seq<u16>>::empty());
        lemma_count_of_no_rows(p, Outcome::Win);
    } else {
        assert forall|r: int| 0 <= r < rows.drop_last().len() implies p < (
        #[trigger] rows.drop_last()[r]).len() by {
            assert(rows.drop_last()[r] == rows[r]);
        }
        lemma_outs_count_is_wins(runouts, rows.drop_last(), p);
        lemma_count_of_next_row(rows, p, Outcome::Win);
        assert(p < rows.last().len());
    }
}

/// The outs of a player are reported exactly where the player wins fewer
/// than half of the boards: a player who wins half of them or more has none
/// reported, and neither has anyone where no board was enumerated.
pub proof fn lemma_outs_only_below_half(
    hand: Seq<char>,
    runouts: Seq<Seq<usize>>,
    rows: Seq<Seq<u16>>,
    p: int,
)
    ensures
        player_equity(hand, runouts, rows, p).outs is Some <==> 2 * player_equity(
            hand,
            runouts,
            rows,
            p,
        ).wins < player_equity(hand, runouts, rows, p).boards,
        rows.len() == 0 ==> player_equity(hand, runouts, rows, p).outs is None,
{
}

} // verus!
