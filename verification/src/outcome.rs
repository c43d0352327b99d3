//! The outcome classifier and the win/loss/tie counts.
//!
//! On one completed board every player has a score, higher being stronger.
//! A player who holds the highest score alone wins; players who share the
//! highest score tie; everyone else loses.

use vstd::prelude::*;

verus! {

/// How one board ended for one player.
#[derive(Clone, Copy, Debug, PartialEq, Eq, Structural)]
pub enum Outcome {
    /// The player alone holds the highest score.
    Win,
    /// The player shares the highest score with at least one other player.
    Tie,
    /// Some other player's score is higher.
    Loss,
}

/// Some player's score is above player `p`'s.
pub open spec fn is_beaten(scores: Seq<u16>, p: int) -> bool {
    exists|q: int| 0 <= q < scores.len() && #[trigger] scores[q] > scores[p]
}

/// Some other player's score equals player `p`'s.
pub open spec fn is_matched(scores: Seq<u16>, p: int) -> bool {
    exists|q: int| 0 <= q < scores.len() && q != p && #[trigger] scores[q] == scores[p]
}

/// The outcome of a board with these scores for player `p`.
pub open spec fn outcome_of(scores: Seq<u16>, p: int) -> Outcome {
    if is_beaten(scores, p) {
        Outcome::Loss
    } else if is_matched(scores, p) {
        Outcome::Tie
    } else {
        Outcome::Win
    }
}

/// The row scores player `p`, and with `outcome` for that player.
pub open spec fn ends_as(row: Seq<u16>, p: int, outcome: Outcome) -> bool {
    0 <= p < row.len() && outcome_of(row, p) == outcome
}

/// The number of boards among `rows` that end as `outcome` for player `p`.
/// A row too short to hold player `p` counts for nothing.
pub open spec fn outcome_count(rows: Seq<Seq<u16>>, p: int, outcome: Outcome) -> nat {
    rows.filter(|row: Seq<u16>| ends_as(row, p, outcome)).len()
}

/// `counts` holds, for each of `n` players, the number of boards among
/// `rows` that end as `outcome` for that player.
pub open spec fn holds_counts(
    counts: Seq<u32>,
    rows: Seq<Seq<u16>>,
    outcome: Outcome,
    n: nat,
) -> bool {
    &&& counts.len() == n
    &&& forall|p: int| 0 <= p < n ==> #[trigger] counts[p] == outcome_count(rows, p, outcome)
}

/// The highest of `scores`, or `None` where there are no players.
pub fn top_score(scores: &[u16]) -> (top: Option<u16>)
    ensures
        scores.len() == 0 <==> top is None,
        top matches Some(m) ==> (forall|q: int| 0 <= q < scores.len() ==> scores[q] <= m),
        top matches Some(m) ==> (exists|q: int| 0 <= q < scores.len() && scores[q] == m),
{
    if scores.len() == 0 {
        return None;
    }
    let mut max: u16 = scores[0];
    let ghost mut at: int = 0;
    let mut i: usize = 1;
    while i < scores.len()
        invariant
            1 <= i <= scores.len(),
            0 <= at < i,
            scores[at] == max,
            forall|q: int| 0 <= q < i ==> scores[q] <= max,
        decreases scores.len() - i,
    {
        if scores[i] > max {
            max = scores[i];
            proof {
                at = i as int;
            }
        }
        i += 1;
    }
    Some(max)
}

/// Classifies one board: the outcome of every player, given every player's
/// score. With no players there is nothing to classify.
pub fn classify(scores: &[u16]) -> (outcomes: Vec<Outcome>)
    ensures
        outcomes.len() == scores.len(),
        forall|p: int|
            0 <= p < scores.len() ==> #[trigger] outcomes[p] == outcome_of(scores@, p),
{
    let max: u16 = match top_score(scores) {
        Some(m) => m,
        None => {
            return Vec::new();
        },
    };
    // How many players hold the highest score, and who the first two are.
    let mut winner_count: usize = 0;
    let ghost mut first: int = 0;
    let ghost mut second: int = 0;
    let mut i: usize = 0;
    while i < scores.len()
        invariant
            i <= scores.len(),
            winner_count <= i,
            winner_count == 0 ==> forall|q: int| 0 <= q < i ==> scores[q] != max,
            winner_count >= 1 ==> 0 <= first < i && scores[first] == max,
            winner_count == 1 ==> forall|q: int| 0 <= q < i && q != first ==> scores[q] != max,
            winner_count >= 2 ==> 0 <= second < i && second != first && scores[second] == max,
        decreases scores.len() - i,
    {
        if scores[i] == max {
            proof {
                if winner_count == 0 {
                    first = i as int;
                } else {
                    second = i as int;
                }
            }
            winner_count += 1;
        }
        i += 1;
    }
    let mut outcomes: Vec<Outcome> = Vec::new();
    let mut p: usize = 0;
    while p < scores.len()
        invariant
            p <= scores.len(),
            outcomes.len() == p,
            forall|q: int| 0 <= q < scores.len() ==> scores[q] <= max,
            exists|q: int| 0 <= q < scores.len() && scores[q] == max,
            winner_count >= 1 ==> 0 <= first < scores.len() && scores[first] == max,
            winner_count == 1 ==> forall|q: int|
                0 <= q < scores.len() && q != first ==> scores[q] != max,
            winner_count >= 2 ==> 0 <= second < scores.len() && second != first
                && scores[second] == max,
            winner_count == 0 ==> forall|q: int| 0 <= q < scores.len() ==> scores[q] != max,
            forall|q: int| 0 <= q < p ==> #[trigger] outcomes[q] == outcome_of(scores@, q),
        decreases scores.len() - p,
    {
        let outcome = if scores[p] == max {
            if winner_count == 1 {
                Outcome::Win
            } else {
                proof {
                    let other = if first == p {
                        second
                    } else {
                        first
                    };
                    assert(scores@[other] == scores@[p as int] && other != p);
                }
                Outcome::Tie
            }
        } else {
            proof {
                let q = choose|q: int| 0 <= q < scores.len() && scores[q] == max;
                assert(scores@[q] > scores@[p as int]);
            }
            Outcome::Loss
        };
        outcomes.push(outcome);
        p += 1;
    }
    outcomes
}

/// One more row adds one to a count where the row ends that way for the
/// player, and nothing elsewhere. No count exceeds the number of rows.
pub proof fn lemma_count_of_next_row(rows: Seq<Seq<u16>>, p: int, outcome: Outcome)
    requires
        rows.len() > 0,
    ensures
        outcome_count(rows, p, outcome) == outcome_count(rows.drop_last(), p, outcome) + (
        if ends_as(rows.last(), p, outcome) {
            1nat
        } else {
            0nat
        }),
        outcome_count(rows, p, outcome) <= rows.len(),
{
    reveal(Seq::filter);
    rows.lemma_filter_len(|row: Seq<u16>| ends_as(row, p, outcome));
}

/// With no rows every count is zero.
pub proof fn lemma_count_of_no_rows(p: int, outcome: Outcome)
    ensures
        outcome_count(Seq::<Seq<u16>>::empty(), p, outcome) == 0,
{
    reveal(Seq::filter);
}

/// A vector of `n` zeros.
fn zeros(n: usize) -> (v: Vec<u32>)
    ensures
        v.len() == n,
        forall|i: int| 0 <= i < n ==> v[i] == 0,
{
    let mut v: Vec<u32> = Vec::new();
    let mut i: usize = 0;
    while i < n
        invariant
            i <= n,
            v.len() == i,
            forall|j: int| 0 <= j < i ==> v[j] == 0,
        decreases n - i,
    {
        v.push(0);
        i += 1;
    }
    v
}

/// The counts of the players in `from..to` are those of `rows`.
spec fn counted(
    wins: Seq<u32>,
    losses: Seq<u32>,
    ties: Seq<u32>,
    rows: Seq<Seq<u16>>,
    from: int,
    to: int,
) -> bool {
    forall|p: int|
        #![trigger wins[p]]
        #![trigger losses[p]]
        #![trigger ties[p]]
        from <= p < to ==> {
            &&& wins[p] == outcome_count(rows, p, Outcome::Win)
            &&& losses[p] == outcome_count(rows, p, Outcome::Loss)
            &&& ties[p] == outcome_count(rows, p, Outcome::Tie)
        }
}

/// Counts, for each of `n` players, the boards won, lost and tied.
///
/// `all_scores` holds one row of scores per board. The result is
/// `(wins, losses, ties)`, each of length `n`: entry `p` of each is the number
/// of rows that score player `p` and end that way for that player. A row
/// with no scores changes nothing.
pub fn compute_outcomes(all_scores: &[Vec<u16>], n: usize) -> (res: (
    Vec<u32>,
    Vec<u32>,
    Vec<u32>,
))
    requires
        all_scores.len() <= u32::MAX,
        forall|r: int| 0 <= r < all_scores.len() ==> (#[trigger] all_scores[r]).len() <= n,
    ensures
        holds_counts(res.0@, all_scores.deep_view(), Outcome::Win, n as nat),
        holds_counts(res.1@, all_scores.deep_view(), Outcome::Loss, n as nat),
        holds_counts(res.2@, all_scores.deep_view(), Outcome::Tie, n as nat),
{
    let mut wins: Vec<u32> = zeros(n);
    let mut losses: Vec<u32> = zeros(n);
    let mut ties: Vec<u32> = zeros(n);
    let ghost rows = all_scores.deep_view();
    let mut r: usize = 0;
    proof {
        assert(rows.take(0) =~= Seq::<Seq<u16>>::empty());
        assert forall|p: int|
            #![trigger wins[p]]
            #![trigger losses[p]]
            #![trigger ties[p]]
            0 <= p < n implies {
            &&& wins[p] == outcome_count(rows.take(0), p, Outcome::Win)
            &&& losses[p] == outcome_count(rows.take(0), p, Outcome::Loss)
            &&& ties[p] == outcome_count(rows.take(0), p, Outcome::Tie)
        } by {
            lemma_count_of_no_rows(p, Outcome::Win);
            lemma_count_of_no_rows(p, Outcome::Loss);
            lemma_count_of_no_rows(p, Outcome::Tie);
        }
    }
    while r < all_scores.len()
        invariant
            r <= all_scores.len() <= u32::MAX,
            rows == all_scores.deep_view(),
            forall|r: int| 0 <= r < all_scores.len() ==> (#[trigger] all_scores[r]).len() <= n,
            wins.len() == n && losses.len() == n && ties.len() == n,
            counted(wins@, losses@, ties@, rows.take(r as int), 0, n as int),
        decreases all_scores.len() - r,
    {
        let scores: &Vec<u16> = &all_scores[r];
        let outcomes: Vec<Outcome> = classify(scores.as_slice());
        let ghost before = rows.take(r as int);
        let ghost after = rows.take(r + 1);
        proof {
            assert(after.drop_last() =~= before);
            assert(after.last() == scores@);
        }
        let mut p: usize = 0;
        while p < scores.len()
            invariant
                p <= scores.len() <= n,
                r < all_scores.len() <= u32::MAX,
                after.len() == r + 1,
                after.drop_last() == before,
                after.last() == scores@,
                outcomes.len() == scores.len(),
                forall|q: int|
                    0 <= q < scores.len() ==> #[trigger] outcomes[q] == outcome_of(scores@, q),
                wins.len() == n && losses.len() == n && ties.len() == n,
                counted(wins@, losses@, ties@, after, 0, p as int),
                counted(wins@, losses@, ties@, before, p as int, n as int),
            decreases scores.len() - p,
        {
            proof {
                lemma_count_of_next_row(after, p as int, Outcome::Win);
                lemma_count_of_next_row(after, p as int, Outcome::Loss);
                lemma_count_of_next_row(after, p as int, Outcome::Tie);
            }
            match outcomes[p] {
                Outcome::Win => {
                    wins[p] += 1;
                },
                Outcome::Tie => {
                    ties[p] += 1;
                },
                Outcome::Loss => {
                    losses[p] += 1;
                },
            }
            p += 1;
        }
        proof {
            assert forall|q: int|
                #![trigger wins[q]]
                #![trigger losses[q]]
                #![trigger ties[q]]
                scores.len() <= q < n implies {
                &&& wins[q] == outcome_count(after, q, Outcome::Win)
                &&& losses[q] == outcome_count(after, q, Outcome::Loss)
                &&& ties[q] == outcome_count(after, q, Outcome::Tie)
            } by {
                lemma_count_of_next_row(after, q, Outcome::Win);
                lemma_count_of_next_row(after, q, Outcome::Loss);
                lemma_count_of_next_row(after, q, Outcome::Tie);
            }
        }
        r += 1;
    }
    proof {
        assert(rows.take(all_scores.len() as int) =~= rows);
    }
    (wins, losses, ties)
}

/// A player with no higher score anywhere exists on every board with
/// players: the index of a highest score.
proof fn lemma_top_player(scores: Seq<u16>) -> (p: int)
    requires
        scores.len() > 0,
    ensures
        0 <= p < scores.len(),
        forall|q: int| 0 <= q < scores.len() ==> scores[q] <= scores[p],
    decreases scores.len(),
{
    if scores.len() == 1 {
        0
    } else {
        let p = lemma_top_player(scores.drop_last());
        let last = scores.len() - 1;
        assert forall|q: int| 0 <= q < last implies scores[q] <= scores[p] by {
            assert(scores.drop_last()[q] == scores[q]);
        }
        assert(scores.drop_last()[p] == scores[p]);
        if scores[last] > scores[p] {
            last
        } else {
            p
        }
    }
}

/// On every board each player has exactly one outcome, and on a board with
/// players at least one of them wins or ties.
pub proof fn lemma_someone_is_on_top(scores: Seq<u16>)
    requires
        scores.len() > 0,
    ensures
        exists|p: int|
            0 <= p < scores.len() && #[trigger] outcome_of(scores, p) != Outcome::Loss,
{
    let p = lemma_top_player(scores);
    assert(outcome_of(scores, p) != Outcome::Loss);
}

/// A board has at most one winner, and beside a winner everyone loses.
pub proof fn lemma_winner_is_alone(scores: Seq<u16>, p: int, q: int)
    requires
        0 <= p < scores.len(),
        0 <= q < scores.len(),
        p != q,
        outcome_of(scores, p) == Outcome::Win,
    ensures
        outcome_of(scores, q) == Outcome::Loss,
{
    assert(scores[q] <= scores[p]);
    assert(scores[q] != scores[p]);
    assert(scores[p] > scores[q]);
}

/// A tie is never alone: someone else ties on the same board, and nobody
/// wins it.
pub proof fn lemma_tie_is_shared(scores: Seq<u16>, p: int)
    requires
        0 <= p < scores.len(),
        outcome_of(scores, p) == Outcome::Tie,
    ensures
        exists|q: int|
            0 <= q < scores.len() && q != p && #[trigger] outcome_of(scores, q) == Outcome::Tie,
        forall|q: int| 0 <= q < scores.len() ==> #[trigger] outcome_of(scores, q) != Outcome::Win,
{
    let q = choose|q: int| 0 <= q < scores.len() && q != p && #[trigger] scores[q] == scores[p];
    assert(!is_beaten(scores, q)) by {
        if is_beaten(scores, q) {
            let t = choose|t: int| 0 <= t < scores.len() && #[trigger] scores[t] > scores[q];
            assert(scores[t] > scores[p]);
        }
    }
    assert(is_matched(scores, q)) by {
        assert(scores[p] == scores[q]);
    }
    assert(outcome_of(scores, q) == Outcome::Tie);
    assert forall|t: int| 0 <= t < scores.len() implies #[trigger] outcome_of(scores, t)
        != Outcome::Win by {
        if outcome_of(scores, t) == Outcome::Win {
            if t == p {
            } else {
                lemma_winner_is_alone(scores, t, p);
            }
        }
    }
}

/// Every board that scores a player is counted once for that player: the
/// wins, losses and ties add up to the number of boards.
pub proof fn lemma_counts_add_up(rows: Seq<Seq<u16>>, p: int)
    requires
        0 <= p,
        forall|r: int| 0 <= r < rows.len() ==> p < (#[trigger] rows[r]).len(),
    ensures
        outcome_count(rows, p, Outcome::Win) + outcome_count(rows, p, Outcome::Loss)
            + outcome_count(rows, p, Outcome::Tie) == rows.len(),
    decreases rows.len(),
{
    if rows.len() == 0 {
        assert(rows =~= Seq::<Seq<u16>>::empty());
        lemma_count_of_no_rows(p, Outcome::Win);
        lemma_count_of_no_rows(p, Outcome::Loss);
        lemma_count_of_no_rows(p, Outcome::Tie);
    } else {
        assert forall|r: int| 0 <= r < rows.drop_last().len() implies p < (
        #[trigger] rows.drop_last()[r]).len() by {
            assert(rows.drop_last()[r] == rows[r]);
        }
        lemma_counts_add_up(rows.drop_last(), p);
        lemma_count_of_next_row(rows, p, Outcome::Win);
        lemma_count_of_next_row(rows, p, Outcome::Loss);
        lemma_count_of_next_row(rows, p, Outcome::Tie);
        assert(p < rows.last().len());
    }
}

} // verus!
