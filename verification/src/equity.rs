//! The equity aggregator and the three entry points.
//!
//! An entry point reads the hands, the known board and the dead cards,
//! builds the deck, visits every runout, has the scorer score every player on
//! every completed board, and reports for each player the boards won, lost
//! and tied and, for a player who wins fewer than half of the boards, the
//! runouts that make that player the only winner.
//!
//! The number of cards in a hand or on the known board is not checked, and
//! neither is it checked that no card is used twice: a card that is used
//! twice is left out of the deck once, and the enumeration is that much
//! smaller.

use vstd::prelude::*;
use vstd::string::*;
use crate::cards::{
    all_cards, build_deck, lemma_deck_is_the_complement, lemma_deck_size, parse_card_ids,
    ParseError,
};
use crate::deal::{
    can_score, deal_of, gives_one_score, is_score_of, lemma_hand_error_is_kept,
    lemma_hands_read, parse_hands, Deal,
};
use crate::outcome::{classify, compute_outcomes, lemma_counts_add_up, outcome_of, Outcome};
use crate::report::{
    assemble, equity_table, lemma_outs_are_sole_wins, outs_text, rate_of, runout_text,
    winning_runouts, PlayerEquity,
};
use crate::runout::{
    binomial, cards_of, lemma_combinations_are_combinations, lemma_combinations_count,
    lemma_enumeration_sizes, lemma_runouts_are_few, Combinations,
};

verus! {

/// `res` is what an enumeration of `slots` unknown board cards reports for
/// these inputs with this scorer: the error of the first input that does not
/// parse, or else one record per hand, computed from a table of scores that
/// the scorer gave for the boards of the deal.
pub open spec fn is_report_of<F: Fn(&[usize]) -> u16>(
    res: Result<Vec<PlayerEquity>, ParseError>,
    hands: Seq<Seq<char>>,
    board: Seq<char>,
    dead: Seq<char>,
    slots: nat,
    scorer: F,
) -> bool {
    match deal_of(hands, board, dead, slots) {
        Err(e) => res matches Err(found) && found == e,
        Ok(deal) => res matches Ok(table) && exists|rows: Seq<Seq<u16>>|
            deal.scored_by(scorer, rows) && #[trigger] equity_table(hands, deal.runouts(), rows)
                == table.deep_view(),
    }
}

/// Equities on the turn: four board cards are known and the river is still
/// to come. Every card left in the deck is tried as the river.
///
/// `player_hands` holds one hand per player, `board_str` the known board
/// and `expose_str` the dead cards, all in card notation. `scorer` scores
/// the cards of one player on one completed board: the hole cards, the
/// known board, then the river.
///
/// The hands are read first, in order, then the board, then the dead cards.
/// The first input that is not card notation gives the error, and nothing is
/// scored then. Otherwise there is one record per hand, in the order of the
/// hands; each record's outs are single river cards.
pub fn equities<F: Fn(&[usize]) -> u16>(
    player_hands: Vec<String>,
    board_str: String,
    expose_str: String,
    scorer: F,
) -> (res: Result<Vec<PlayerEquity>, ParseError>)
    requires
        deal_of(player_hands.deep_view(), board_str@, expose_str@, 1) matches Ok(deal)
            ==> deal.scorable_by(scorer),
    ensures
        is_report_of(res, player_hands.deep_view(), board_str@, expose_str@, 1, scorer),
{
    run(&player_hands, board_str.as_str(), expose_str.as_str(), 1, &scorer)
}

/// Equities on the flop: three board cards are known, turn and river are
/// still to come. Every pair of cards left in the deck is tried, each pair
/// once, the card that is lower in the deck as the turn.
///
/// The inputs are those of `equities`, with `flop_str` the known board.
/// Each record's outs are turn and river pairs.
pub fn flop_equities<F: Fn(&[usize]) -> u16>(
    player_hands: Vec<String>,
    flop_str: String,
    expose_str: String,
    scorer: F,
) -> (res: Result<Vec<PlayerEquity>, ParseError>)
    requires
        deal_of(player_hands.deep_view(), flop_str@, expose_str@, 2) matches Ok(deal)
            ==> deal.scorable_by(scorer),
    ensures
        is_report_of(res, player_hands.deep_view(), flop_str@, expose_str@, 2, scorer),
{
    run(&player_hands, flop_str.as_str(), expose_str.as_str(), 2, &scorer)
}

/// Equities before the flop: no board card is known. Every set of five
/// cards left in the deck is tried as the board, each set once.
///
/// The inputs are those of `equities` without a board. Each record's outs
/// are whole boards of five cards.
pub fn preflop_equities<F: Fn(&[usize]) -> u16>(
    player_hands: Vec<String>,
    expose_str: String,
    scorer: F,
) -> (res: Result<Vec<PlayerEquity>, ParseError>)
    requires
        deal_of(player_hands.deep_view(), Seq::<char>::empty(), expose_str@, 5) matches Ok(deal)
            ==> deal.scorable_by(scorer),
    ensures
        is_report_of(
            res,
            player_hands.deep_view(),
            Seq::<char>::empty(),
            expose_str@,
            5,
            scorer,
        ),
{
    proof {
        reveal_strlit("");
        assert(""@ =~= Seq::<char>::empty());
    }
    run(&player_hands, "", expose_str.as_str(), 5, &scorer)
}

/// Reads the inputs, enumerates the runouts of `slots` cards and reports.
fn run<F: Fn(&[usize]) -> u16>(
    player_hands: &Vec<String>,
    board_str: &str,
    expose_str: &str,
    slots: usize,
    scorer: &F,
) -> (res: Result<Vec<PlayerEquity>, ParseError>)
    requires
        slots == 1 || slots == 2 || slots == 5,
        deal_of(player_hands.deep_view(), board_str@, expose_str@, slots as nat) matches Ok(deal)
            ==> deal.scorable_by(*scorer),
    ensures
        is_report_of(res, player_hands.deep_view(), board_str@, expose_str@, slots as nat, *scorer),
{
    let n: usize = player_hands.len();
    let ghost texts = player_hands.deep_view();
    let mut player_ids: Vec<Vec<usize>> = Vec::new();
    let mut i: usize = 0;
    proof {
        assert(player_ids.deep_view() =~= Seq::<Seq<usize>>::empty());
    }
    while i < n
        invariant
            i <= n,
            n == player_hands.len(),
            texts == player_hands.deep_view(),
            player_ids.len() == i,
            parse_hands(texts, i as nat) == Ok::<Seq<Seq<usize>>, ParseError>(
                player_ids.deep_view(),
            ),
            forall|p: int| 0 <= p < i ==> all_cards(#[trigger] player_ids[p]@),
        decreases n - i,
    {
        let ghost before = player_ids.deep_view();
        match parse_card_ids(player_hands[i].as_str()) {
            Ok(ids) => {
                let ghost cards = ids@;
                proof {
                    assert(ids.deep_view() =~= cards);
                }
                player_ids.push(ids);
                proof {
                    assert(texts[i as int] == player_hands[i as int]@);
                    assert(player_ids.deep_view() =~= before.push(cards));
                }
            },
            Err(e) => {
                proof {
                    assert(texts[i as int] == player_hands[i as int]@);
                    lemma_hand_error_is_kept(texts, (i + 1) as nat, n as nat);
                }
                return Err(e);
            },
        }
        i += 1;
    }
    let board_ids: Vec<usize> = match parse_card_ids(board_str) {
        Ok(ids) => ids,
        Err(e) => {
            return Err(e);
        },
    };
    let expose_ids: Vec<usize> = match parse_card_ids(expose_str) {
        Ok(ids) => ids,
        Err(e) => {
            return Err(e);
        },
    };
    let ghost deal = Deal {
        hands: player_ids.deep_view(),
        known: board_ids@,
        dead: expose_ids@,
        slots: slots as nat,
    };
    proof {
        assert(deal_of(texts, board_str@, expose_str@, slots as nat) == Ok::<Deal, ParseError>(
            deal,
        ));
        assert forall|p: int| 0 <= p < n implies deal.hands[p] == (#[trigger] player_ids[p])@ by {
            assert(player_ids.deep_view()[p] =~= player_ids[p]@);
        }
    }
    let mut excluded: Vec<usize> = copy_cards(board_ids.as_slice());
    let mut j: usize = 0;
    proof {
        assert(deal.hands.take(0) =~= Seq::<Seq<usize>>::empty());
        assert(excluded@ =~= deal.known + deal.hands.take(0).flatten());
    }
    while j < n
        invariant
            j <= n,
            n == player_ids.len(),
            deal.hands.len() == n,
            forall|p: int| 0 <= p < n ==> deal.hands[p] == (#[trigger] player_ids[p])@,
            forall|p: int| 0 <= p < n ==> all_cards(#[trigger] player_ids[p]@),
            excluded@ == deal.known + deal.hands.take(j as int).flatten(),
            all_cards(excluded@),
        decreases n - j,
    {
        append_cards(&mut excluded, player_ids[j].as_slice());
        proof {
            let seen = deal.hands.take(j as int);
            assert(deal.hands.take(j + 1) =~= seen.push(player_ids[j as int]@));
            seen.lemma_flatten_push(player_ids[j as int]@);
            assert(excluded@ =~= deal.known + deal.hands.take(j + 1).flatten());
            assert(all_cards(player_ids[j as int]@));
        }
        j += 1;
    }
    append_cards(&mut excluded, expose_ids.as_slice());
    proof {
        assert(deal.hands.take(n as int) =~= deal.hands);
        assert(excluded@ =~= deal.excluded());
    }
    let deck: Vec<usize> = build_deck(excluded.as_slice());
    let (all_scores, outs) = enumerate(&player_ids, &board_ids, &deck, slots, scorer, Ghost(deal));
    let ghost rows = all_scores.deep_view();
    proof {
        lemma_deck_size(excluded@);
        lemma_deck_is_the_complement(excluded@);
        lemma_runouts_are_few(deck@, slots as nat);
        assert forall|r: int| 0 <= r < all_scores.len() implies (#[trigger] all_scores[r]).len()
            <= n by {
            assert(rows[r] =~= all_scores[r]@);
        }
    }
    let (wins, losses, ties) = compute_outcomes(all_scores.as_slice(), n);
    let boards: u32 = all_scores.len() as u32;
    proof {
        assert forall|p: int, i: int|
            0 <= p < outs.len() && 0 <= i < outs[p].len() implies all_cards(
            #[trigger] outs[p][i]@,
        ) by {
            let won = winning_runouts(deal.runouts(), rows, p);
            assert(outs[p].deep_view()[i] =~= outs[p][i]@);
            lemma_outs_are_sole_wins(deal.runouts(), rows, p, i);
            let b = choose|b: int|
                0 <= b < rows.len() && deal.runouts()[b] == won[i] && outcome_of(
                    #[trigger] rows[b],
                    p,
                ) == Outcome::Win;
            lemma_combinations_are_combinations(deck@.len(), slots as nat, b);
        }
    }
    let table: Vec<PlayerEquity> = assemble(
        player_hands.as_slice(),
        wins.as_slice(),
        losses.as_slice(),
        ties.as_slice(),
        boards,
        outs.as_slice(),
    );
    proof {
        assert(equity_table(texts, deal.runouts(), rows) =~= table.deep_view());
    }
    Ok(table)
}

/// Visits every runout of the deal: scores every player on every completed
/// board and collects, for every player, the runouts that player wins alone.
fn enumerate<F: Fn(&[usize]) -> u16>(
    player_ids: &Vec<Vec<usize>>,
    board_ids: &Vec<usize>,
    deck: &Vec<usize>,
    slots: usize,
    scorer: &F,
    Ghost(deal): Ghost<Deal>,
) -> (res: (Vec<Vec<u16>>, Vec<Vec<Vec<usize>>>))
    requires
        deal.hands.len() == player_ids.len(),
        forall|p: int| 0 <= p < player_ids.len() ==> deal.hands[p] == (#[trigger] player_ids[p])@,
        deal.known == board_ids@,
        deal.deck() == deck@,
        deal.slots == slots,
        deal.scorable_by(*scorer),
    ensures
        deal.scored_by(*scorer, res.0.deep_view()),
        res.1.len() == player_ids.len(),
        forall|p: int|
            0 <= p < player_ids.len() ==> (#[trigger] res.1[p]).deep_view() == winning_runouts(
                deal.runouts(),
                res.0.deep_view(),
                p,
            ),
{
    let n: usize = player_ids.len();
    let mut all_scores: Vec<Vec<u16>> = Vec::new();
    let mut outs: Vec<Vec<Vec<usize>>> = Vec::new();
    let mut p: usize = 0;
    while p < n
        invariant
            p <= n,
            outs.len() == p,
            forall|q: int| 0 <= q < p ==> (#[trigger] outs[q]).len() == 0,
        decreases n - p,
    {
        outs.push(Vec::new());
        p += 1;
    }
    let mut cursor = Combinations::new(deck.len(), slots);
    let ghost all = deal.runouts();
    proof {
        assert forall|q: int| 0 <= q < n implies (#[trigger] outs[q]).deep_view()
            == winning_runouts(all, all_scores.deep_view(), q) by {
            assert(outs[q].deep_view() =~= Seq::<Seq<usize>>::empty());
        }
    }
    loop
        invariant
            n == player_ids.len(),
            deal.hands.len() == n,
            forall|p: int| 0 <= p < n ==> deal.hands[p] == (#[trigger] player_ids[p])@,
            deal.known == board_ids@,
            deal.deck() == deck@,
            deal.slots == slots,
            deal.scorable_by(*scorer),
            all == deal.runouts(),
            cursor.wf(),
            cursor.universe() == deck.len(),
            cursor.width() == slots,
            cursor.position() == all_scores.len(),
            all_scores.len() <= all.len(),
            forall|b: int| 0 <= b < all_scores.len() ==> (#[trigger] all_scores[b]).len() == n,
            forall|q: int, b: int|
                0 <= q < n && 0 <= b < all_scores.len() ==> is_score_of(
                    *scorer,
                    deal.asked(q, b),
                    #[trigger] all_scores[b][q],
                ),
            outs.len() == n,
            forall|q: int|
                0 <= q < n ==> (#[trigger] outs[q]).deep_view() == winning_runouts(
                    all,
                    all_scores.deep_view(),
                    q,
                ),
        ensures
            all_scores.len() == all.len(),
        decreases all.len() - all_scores.len(),
    {
        let ghost r = all_scores.len() as int;
        let runout: Vec<usize> = match cursor.current() {
            None => {
                break ;
            },
            Some(idx) => cards_of(deck.as_slice(), idx.as_slice()),
        };
        proof {
            assert(runout@ == all[r]);
        }
        let mut board: Vec<usize> = copy_cards(board_ids.as_slice());
        append_cards(&mut board, runout.as_slice());
        proof {
            assert(board@ == deal.board(r));
            assert forall|q: int| 0 <= q < n implies can_score(
                *scorer,
                #[trigger] player_ids[q]@ + board@,
            ) by {
                assert(player_ids[q]@ + board@ == deal.asked(q, r));
            }
        }
        let scores: Vec<u16> = evaluate_players(player_ids.as_slice(), board.as_slice(), scorer);
        let outcomes: Vec<Outcome> = classify(scores.as_slice());
        let ghost rows = all_scores.deep_view();
        let ghost old_outs = outs;
        record_winners(&mut outs, &outcomes, &runout);
        all_scores.push(scores);
        cursor.advance();
        proof {
            let now = all_scores.deep_view();
            assert(now.drop_last() =~= rows);
            assert(now.last() =~= scores@);
            assert forall|q: int| 0 <= q < n implies (#[trigger] outs[q]).deep_view()
                == winning_runouts(all, now, q) by {
                assert(old_outs[q].deep_view() == winning_runouts(all, rows, q));
            }
            assert forall|q: int, b: int|
                0 <= q < n && 0 <= b < all_scores.len() implies is_score_of(
                *scorer,
                deal.asked(q, b),
                #[trigger] all_scores[b][q],
            ) by {
                if b == r {
                    assert(player_ids[q]@ + board@ == deal.asked(q, r));
                }
            }
        }
    }
    proof {
        let rows = all_scores.deep_view();
        assert forall|b: int| 0 <= b < rows.len() implies deal.board_scored_by(
            *scorer,
            b,
            #[trigger] rows[b],
        ) by {
            assert(rows[b] =~= all_scores[b]@);
            assert forall|q: int| 0 <= q < n implies is_score_of(
                *scorer,
                deal.asked(q, b),
                #[trigger] rows[b][q],
            ) by {
                assert(rows[b][q] == all_scores[b][q]);
            }
        }
    }
    (all_scores, outs)
}

/// Adds `runout` to the outs of every player whom it makes the only winner.
fn record_winners(
    outs: &mut Vec<Vec<Vec<usize>>>,
    outcomes: &Vec<Outcome>,
    runout: &Vec<usize>,
)
    requires
        old(outs).len() == outcomes.len(),
    ensures
        final(outs).len() == old(outs).len(),
        forall|p: int|
            0 <= p < outcomes.len() ==> (#[trigger] final(outs)[p]).deep_view() == if outcomes[p]
                == Outcome::Win {
                old(outs)[p].deep_view().push(runout@)
            } else {
                old(outs)[p].deep_view()
            },
{
    let mut p: usize = 0;
    while p < outcomes.len()
        invariant
            p <= outcomes.len(),
            outs.len() == outcomes.len(),
            old(outs).len() == outcomes.len(),
            forall|q: int|
                0 <= q < p ==> (#[trigger] outs[q]).deep_view() == if outcomes[q] == Outcome::Win {
                    old(outs)[q].deep_view().push(runout@)
                } else {
                    old(outs)[q].deep_view()
                },
            forall|q: int| p <= q < outcomes.len() ==> #[trigger] outs[q] == old(outs)[q],
        decreases outcomes.len() - p,
    {
        match outcomes[p] {
            Outcome::Win => {
                let ghost before = outs[p as int].deep_view();
                let copy: Vec<usize> = copy_cards(runout.as_slice());
                proof {
                    assert(copy.deep_view() =~= runout@);
                }
                outs[p].push(copy);
                proof {
                    assert(outs[p as int].deep_view() =~= before.push(runout@));
                }
            },
            _ => {},
        }
        p += 1;
    }
}

/// Scores every player on one board: player `p` is scored on that player's
/// hole cards followed by the board.
pub fn evaluate_players<F: Fn(&[usize]) -> u16>(
    player_ids: &[Vec<usize>],
    board_ids: &[usize],
    scorer: &F,
) -> (scores: Vec<u16>)
    requires
        forall|p: int|
            0 <= p < player_ids.len() ==> can_score(
                *scorer,
                #[trigger] player_ids[p]@ + board_ids@,
            ),
    ensures
        scores.len() == player_ids.len(),
        forall|p: int|
            0 <= p < player_ids.len() ==> is_score_of(
                *scorer,
                player_ids[p]@ + board_ids@,
                #[trigger] scores[p],
            ),
{
    let mut scores: Vec<u16> = Vec::new();
    let mut p: usize = 0;
    while p < player_ids.len()
        invariant
            p <= player_ids.len(),
            scores.len() == p,
            forall|q: int|
                0 <= q < player_ids.len() ==> can_score(
                    *scorer,
                    #[trigger] player_ids[q]@ + board_ids@,
                ),
            forall|q: int|
                0 <= q < p ==> is_score_of(
                    *scorer,
                    player_ids[q]@ + board_ids@,
                    #[trigger] scores[q],
                ),
        decreases player_ids.len() - p,
    {
        let mut all: Vec<usize> = Vec::new();
        append_cards(&mut all, player_ids[p].as_slice());
        append_cards(&mut all, board_ids);
        proof {
            assert(all@ =~= player_ids[p as int]@ + board_ids@);
            assert(can_score(*scorer, player_ids[p as int]@ + board_ids@));
        }
        let score: u16 = scorer(all.as_slice());
        scores.push(score);
        p += 1;
    }
    scores
}

/// Appends `more` to `cards`.
fn append_cards(cards: &mut Vec<usize>, more: &[usize])
    ensures
        final(cards)@ == old(cards)@ + more@,
{
    let mut i: usize = 0;
    while i < more.len()
        invariant
            i <= more.len(),
            cards@ == old(cards)@ + more@.take(i as int),
        decreases more.len() - i,
    {
        cards.push(more[i]);
        proof {
            assert(more@.take(i + 1) =~= more@.take(i as int).push(more@[i as int]));
        }
        i += 1;
    }
    proof {
        assert(more@.take(more.len() as int) =~= more@);
    }
}

/// A copy of `cards`.
fn copy_cards(cards: &[usize]) -> (copy: Vec<usize>)
    ensures
        copy@ == cards@,
{
    let mut copy: Vec<usize> = Vec::new();
    append_cards(&mut copy, cards);
    proof {
        assert(copy@ =~= cards@);
    }
    copy
}

/// In every record of a report the wins, losses and ties add up to the
/// boards enumerated, so that the three rates add up to one wherever a board
/// was enumerated.
pub proof fn lemma_report_adds_up<F: Fn(&[usize]) -> u16>(
    res: Result<Vec<PlayerEquity>, ParseError>,
    hands: Seq<Seq<char>>,
    board: Seq<char>,
    dead: Seq<char>,
    slots: nat,
    scorer: F,
    p: int,
)
    requires
        is_report_of(res, hands, board, dead, slots, scorer),
        res matches Ok(table) && 0 <= p < table.len(),
    ensures
        res->Ok_0[p]@.wins + res->Ok_0[p]@.losses + res->Ok_0[p]@.ties == res->Ok_0[p]@.boards,
        res->Ok_0[p]@.boards > 0 ==> rate_of(res->Ok_0[p]@.wins, res->Ok_0[p]@.boards).0
            + rate_of(res->Ok_0[p]@.losses, res->Ok_0[p]@.boards).0 + rate_of(
            res->Ok_0[p]@.ties,
            res->Ok_0[p]@.boards,
        ).0 == rate_of(res->Ok_0[p]@.wins, res->Ok_0[p]@.boards).1,
{
    let deal = deal_of(hands, board, dead, slots)->Ok_0;
    let table = res->Ok_0;
    let rows = choose|rows: Seq<Seq<u16>>|
        deal.scored_by(scorer, rows) && #[trigger] equity_table(hands, deal.runouts(), rows)
            == table.deep_view();
    lemma_hands_read(hands, hands.len());
    assert(deal.hands.len() == hands.len());
    assert(table.deep_view().len() == table.len());
    assert(table.deep_view()[p] == table[p]@);
    lemma_counts_add_up(rows, p);
}

/// Every record of a report counts every board of the deal: as many as the
/// deck has cards where one slot is open, as many as it has pairs where two
/// are, as many as it has sets of five where five are.
pub proof fn lemma_report_counts_every_board<F: Fn(&[usize]) -> u16>(
    res: Result<Vec<PlayerEquity>, ParseError>,
    hands: Seq<Seq<char>>,
    board: Seq<char>,
    dead: Seq<char>,
    slots: nat,
    scorer: F,
    p: int,
)
    requires
        is_report_of(res, hands, board, dead, slots, scorer),
        res matches Ok(table) && 0 <= p < table.len(),
    ensures
        deal_of(hands, board, dead, slots) matches Ok(deal) && {
            let boards = res->Ok_0[p]@.boards;
            let d = deal.deck().len();
            &&& boards == deal.runouts().len()
            &&& boards == binomial(d, slots)
            &&& slots == 1 ==> boards == d
            &&& slots == 2 ==> boards == d * (d - 1) / 2
            &&& slots == 5 ==> boards == d * (d - 1) * (d - 2) * (d - 3) * (d - 4) / 120
        },
{
    let deal = deal_of(hands, board, dead, slots)->Ok_0;
    let table = res->Ok_0;
    let rows = choose|rows: Seq<Seq<u16>>|
        deal.scored_by(scorer, rows) && #[trigger] equity_table(hands, deal.runouts(), rows)
            == table.deep_view();
    assert(table.deep_view().len() == table.len());
    assert(table.deep_view()[p] == table[p]@);
    assert(table[p]@.boards == rows.len());
    lemma_combinations_count(deal.deck().len(), slots);
    lemma_enumeration_sizes(deal.deck().len());
}

/// With a scorer that gives every list of cards one score only, the inputs
/// decide the report: two runs on the same inputs end with the same error, or
/// with the same records in the same order, outs included.
pub proof fn lemma_report_is_determined<F: Fn(&[usize]) -> u16>(
    first: Result<Vec<PlayerEquity>, ParseError>,
    second: Result<Vec<PlayerEquity>, ParseError>,
    hands: Seq<Seq<char>>,
    board: Seq<char>,
    dead: Seq<char>,
    slots: nat,
    scorer: F,
)
    requires
        gives_one_score(scorer),
        is_report_of(first, hands, board, dead, slots, scorer),
        is_report_of(second, hands, board, dead, slots, scorer),
    ensures
        match (first, second) {
            (Ok(a), Ok(b)) => a.deep_view() == b.deep_view(),
            (Err(a), Err(b)) => a == b,
            _ => false,
        },
{
    if let Ok(deal) = deal_of(hands, board, dead, slots) {
        let a = first->Ok_0;
        let b = second->Ok_0;
        let rows_a = choose|rows: Seq<Seq<u16>>|
            deal.scored_by(scorer, rows) && #[trigger] equity_table(hands, deal.runouts(), rows)
                == a.deep_view();
        let rows_b = choose|rows: Seq<Seq<u16>>|
            deal.scored_by(scorer, rows) && #[trigger] equity_table(hands, deal.runouts(), rows)
                == b.deep_view();
        assert(rows_a =~= rows_b) by {
            assert forall|r: int| 0 <= r < rows_a.len() implies rows_a[r] =~= rows_b[r] by {
                assert(deal.board_scored_by(scorer, r, rows_a[r]));
                assert(deal.board_scored_by(scorer, r, rows_b[r]));
                assert forall|q: int| 0 <= q < rows_a[r].len() implies rows_a[r][q]
                    == rows_b[r][q] by {
                    assert(is_score_of(scorer, deal.asked(q, r), rows_a[r][q]));
                    assert(is_score_of(scorer, deal.asked(q, r), rows_b[r][q]));
                }
            }
        }
    }
}

/// Every runout that a report lists among the outs of a player completes a
/// board of the deal on which that player is the only winner, and stays so
/// however often the board is scored again, with a scorer that gives every
/// list of cards one score only.
pub proof fn lemma_reported_outs_win_again<F: Fn(&[usize]) -> u16>(
    res: Result<Vec<PlayerEquity>, ParseError>,
    hands: Seq<Seq<char>>,
    board: Seq<char>,
    dead: Seq<char>,
    slots: nat,
    scorer: F,
    p: int,
    i: int,
)
    requires
        gives_one_score(scorer),
        is_report_of(res, hands, board, dead, slots, scorer),
        res matches Ok(table) && 0 <= p < table.len() && (table[p]@.outs matches Some(outs) && 0
            <= i < outs.len()),
    ensures
        deal_of(hands, board, dead, slots) matches Ok(deal) && exists|b: int|
            {
                &&& 0 <= b < deal.runouts().len()
                &&& res->Ok_0[p]@.outs->Some_0[i] == runout_text(#[trigger] deal.runouts()[b])
                &&& forall|again: Seq<u16>|
                    deal.board_scored_by(scorer, b, again) ==> outcome_of(again, p)
                        == Outcome::Win
            },
{
    let deal = deal_of(hands, board, dead, slots)->Ok_0;
    let table = res->Ok_0;
    let rows = choose|rows: Seq<Seq<u16>>|
        deal.scored_by(scorer, rows) && #[trigger] equity_table(hands, deal.runouts(), rows)
            == table.deep_view();
    assert(equity_table(hands, deal.runouts(), rows).len() == hands.len());
    assert(table.deep_view()[p] == table[p]@);
    let won = winning_runouts(deal.runouts(), rows, p);
    assert(table[p]@.outs == Some(outs_text(won)));
    lemma_outs_are_sole_wins(deal.runouts(), rows, p, i);
    let b = choose|b: int|
        0 <= b < rows.len() && deal.runouts()[b] == won[i] && outcome_of(#[trigger] rows[b], p)
            == Outcome::Win;
    assert forall|again: Seq<u16>| deal.board_scored_by(scorer, b, again) implies outcome_of(
        again,
        p,
    ) == Outcome::Win by {
        assert(deal.board_scored_by(scorer, b, rows[b]));
        assert forall|q: int| 0 <= q < again.len() implies again[q] == rows[b][q] by {
            assert(is_score_of(scorer, deal.asked(q, b), again[q]));
            assert(is_score_of(scorer, deal.asked(q, b), rows[b][q]));
        }
        assert(again =~= rows[b]);
    }
    assert(deal.runouts()[b] == won[i]);
}

} // verus!
