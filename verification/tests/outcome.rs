use poker_odds::outcome::{classify, compute_outcomes, top_score, Outcome};

#[test]
fn top_score_is_the_maximum() {
    assert_eq!(top_score(&[3, 9, 4]), Some(9));
    assert_eq!(top_score(&[7]), Some(7));
    assert_eq!(top_score(&[0, 0]), Some(0));
    assert_eq!(top_score(&[]), None);
}

#[test]
fn a_single_highest_score_wins() {
    assert_eq!(
        classify(&[10, 30, 20]),
        vec![Outcome::Loss, Outcome::Win, Outcome::Loss]
    );
}

#[test]
fn shared_highest_score_ties_and_nobody_wins() {
    assert_eq!(
        classify(&[30, 10, 30]),
        vec![Outcome::Tie, Outcome::Loss, Outcome::Tie]
    );
    assert_eq!(classify(&[5, 5]), vec![Outcome::Tie, Outcome::Tie]);
}

#[test]
fn a_lone_player_wins() {
    assert_eq!(classify(&[0]), vec![Outcome::Win]);
    assert_eq!(classify(&[65535]), vec![Outcome::Win]);
}

#[test]
fn no_players_no_outcomes() {
    assert_eq!(classify(&[]), Vec::<Outcome>::new());
}

#[test]
fn zero_scores_tie_too() {
    assert_eq!(
        classify(&[0, 0, 0]),
        vec![Outcome::Tie, Outcome::Tie, Outcome::Tie]
    );
}

#[test]
fn every_board_has_someone_on_top_and_one_outcome_each() {
    let boards: Vec<Vec<u16>> = vec![
        vec![1, 2, 3],
        vec![3, 3, 3],
        vec![9, 1, 9],
        vec![4],
        vec![0, 7],
    ];
    for scores in boards {
        let outcomes = classify(&scores);
        assert_eq!(outcomes.len(), scores.len());
        let on_top = outcomes.iter().filter(|o| **o != Outcome::Loss).count();
        assert!(on_top >= 1);
        let wins = outcomes.iter().filter(|o| **o == Outcome::Win).count();
        let ties = outcomes.iter().filter(|o| **o == Outcome::Tie).count();
        assert!(wins <= 1);
        assert!(wins == 0 || ties == 0);
        assert!(ties != 1);
    }
}

#[test]
fn counts_wins_losses_and_ties() {
    let all_scores: Vec<Vec<u16>> = vec![vec![10, 20], vec![20, 10], vec![15, 15], vec![1, 2]];
    let (wins, losses, ties) = compute_outcomes(&all_scores, 2);
    assert_eq!(wins, vec![1, 2]);
    assert_eq!(losses, vec![2, 1]);
    assert_eq!(ties, vec![1, 1]);
}

#[test]
fn counts_add_up_to_the_boards() {
    let all_scores: Vec<Vec<u16>> = vec![
        vec![1, 2, 3],
        vec![3, 3, 1],
        vec![5, 5, 5],
        vec![9, 0, 0],
        vec![2, 7, 7],
    ];
    let (wins, losses, ties) = compute_outcomes(&all_scores, 3);
    for p in 0..3 {
        assert_eq!(wins[p] + losses[p] + ties[p], 5);
    }
    assert_eq!(wins, vec![1, 0, 1]);
    assert_eq!(losses, vec![2, 2, 2]);
    assert_eq!(ties, vec![2, 3, 2]);
}

#[test]
fn no_boards_no_counts() {
    let (wins, losses, ties) = compute_outcomes(&[], 3);
    assert_eq!(wins, vec![0, 0, 0]);
    assert_eq!(losses, vec![0, 0, 0]);
    assert_eq!(ties, vec![0, 0, 0]);
}

#[test]
fn no_players_no_counts() {
    let all_scores: Vec<Vec<u16>> = vec![vec![], vec![]];
    let (wins, losses, ties) = compute_outcomes(&all_scores, 0);
    assert!(wins.is_empty() && losses.is_empty() && ties.is_empty());
}

#[test]
fn a_short_row_counts_only_for_the_players_it_scores() {
    let all_scores: Vec<Vec<u16>> = vec![vec![4, 9, 1], vec![6], vec![]];
    let (wins, losses, ties) = compute_outcomes(&all_scores, 3);
    assert_eq!(wins, vec![1, 1, 0]);
    assert_eq!(losses, vec![1, 0, 1]);
    assert_eq!(ties, vec![0, 0, 0]);
}
