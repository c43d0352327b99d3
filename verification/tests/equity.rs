use poker_odds::cards::{parse_card_ids, ParseError};
use poker_odds::equity::{equities, evaluate_players, flop_equities, preflop_equities};
use poker_odds::report::{assemble, format_outs, format_runout, rate, PlayerEquity, Rate};

fn strings(items: &[&str]) -> Vec<String> {
    items.iter().map(|s| s.to_string()).collect()
}

fn ways(n: u16, k: u16) -> u16 {
    if k > n {
        return 0;
    }
    let mut value: u32 = 1;
    for i in 0..k as u32 {
        value = value * (n as u32 - i) / (i + 1);
    }
    value as u16
}

/// Place of a set of distinct ranks, highest first, among all such sets of
/// its size: a set with a higher first rank comes later, then a higher second
/// rank, and so on.
fn place(ranks: &[u16]) -> u16 {
    let k = ranks.len() as u16;
    ranks
        .iter()
        .enumerate()
        .map(|(i, &r)| ways(r, k - i as u16))
        .sum()
}

fn ranks_of(mask: u16) -> Vec<u16> {
    (0..13u16).rev().filter(|r| mask >> r & 1 == 1).collect()
}

fn straight_top(mask: u16) -> Option<u16> {
    for top in (4..13u16).rev() {
        if mask >> (top - 4) & 0x1f == 0x1f {
            return Some(top);
        }
    }
    if mask & 0x100f == 0x100f {
        return Some(3);
    }
    None
}

/// A plain hand-strength scorer for five to seven cards: the category of the
/// best five-card hand in the top four bits, what breaks ties inside the
/// category below.
fn strength(cards: &[usize]) -> u16 {
    let mut rank_count = [0u8; 13];
    let mut suit_mask = [0u16; 4];
    let mut suit_count = [0u8; 4];
    for &c in cards {
        rank_count[c / 4] += 1;
        suit_mask[c % 4] |= 1 << (c / 4);
        suit_count[c % 4] += 1;
    }
    let with = |n: u8| -> Vec<u16> {
        (0..13u16).rev().filter(|&r| rank_count[r as usize] == n).collect()
    };
    let others = |taken: &[u16], n: usize| -> Vec<u16> {
        (0..13u16)
            .rev()
            .filter(|r| rank_count[*r as usize] > 0 && !taken.contains(r))
            .take(n)
            .collect()
    };
    let all_ranks: u16 = suit_mask.iter().fold(0, |a, m| a | m);
    let flush = (0..4).find(|&s| suit_count[s] >= 5);
    if let Some(s) = flush {
        if let Some(top) = straight_top(suit_mask[s]) {
            return 8 << 12 | top;
        }
    }
    let quads = with(4);
    if let Some(&q) = quads.first() {
        return 7 << 12 | (q * 13 + others(&[q], 1)[0]);
    }
    let trips = with(3);
    let pairs = with(2);
    if let Some(&t) = trips.first() {
        let second = trips.get(1).copied().into_iter().chain(pairs.first().copied()).max();
        if let Some(p) = second {
            return 6 << 12 | (t * 13 + p);
        }
    }
    if let Some(s) = flush {
        let top_five: Vec<u16> = ranks_of(suit_mask[s]).into_iter().take(5).collect();
        return 5 << 12 | place(&top_five);
    }
    if let Some(top) = straight_top(all_ranks) {
        return 4 << 12 | top;
    }
    if let Some(&t) = trips.first() {
        return 3 << 12 | (t * 78 + place(&others(&[t], 2)));
    }
    if pairs.len() >= 2 {
        let two = [pairs[0], pairs[1]];
        return 2 << 12 | (place(&two) * 13 + others(&two, 1)[0]);
    }
    if let Some(&p) = pairs.first() {
        return 1 << 12 | (p * 286 + place(&others(&[p], 3)));
    }
    place(&others(&[], 5))
}

fn score_of(text: &str) -> u16 {
    strength(&parse_card_ids(text).unwrap())
}

#[test]
fn the_test_scorer_ranks_the_categories() {
    let ladder = [
        "2c3d5h7s9cJdKh",
        "2c2d5h7s9cJdKh",
        "2c2d5h5s9cJdKh",
        "2c2d2h7s9cJdKh",
        "2c3d4h5s6cJdKh",
        "2c3c5c7c9cJdKh",
        "2c2d2h7s7cJdKh",
        "2c2d2h2s9cJdKh",
        "2c3c4c5c6cJdKh",
    ];
    for i in 1..ladder.len() {
        assert!(score_of(ladder[i - 1]) < score_of(ladder[i]));
    }
    assert!(score_of("AhAdKs7c2d") > score_of("AhAdQs7c2d"));
    assert!(score_of("Ah2d3s4c5d") < score_of("2d3s4c5d6h"));
    assert_eq!(score_of("AhKdQsJcTd2c3c"), score_of("AsKcQhJdTc4d5d"));
    assert_eq!(score_of("AsAcAdAh9c2c3c"), score_of("AsAcAdAh9c2d3d"));
}

fn total(record: &PlayerEquity) -> u32 {
    record.wins + record.losses + record.ties
}

#[test]
fn river_mode_tries_every_card_of_the_deck() {
    let table = equities(
        strings(&["AhKh", "QsQd"]),
        "2c7d9hJs".to_string(),
        "".to_string(),
        strength,
    )
    .unwrap();
    assert_eq!(table.len(), 2);
    for record in &table {
        assert_eq!(record.boards, 44);
        assert_eq!(total(record), 44);
    }
    let with_dead = equities(
        strings(&["AhKh", "QsQd"]),
        "2c7d9hJs".to_string(),
        "3c 4c 5c".to_string(),
        strength,
    )
    .unwrap();
    assert_eq!(with_dead[0].boards, 41);
}

#[test]
fn flop_mode_tries_every_pair_of_the_deck() {
    let table = flop_equities(
        strings(&["AhKh", "QsQd"]),
        "2c7d9h".to_string(),
        "".to_string(),
        strength,
    )
    .unwrap();
    for record in &table {
        assert_eq!(record.boards, 45 * 44 / 2);
        assert_eq!(total(record), 990);
    }
}

#[test]
fn preflop_mode_tries_every_board_of_the_deck() {
    let table = preflop_equities(strings(&["AhKh", "QsQd"]), "".to_string(), |_: &[usize]| 0)
        .unwrap();
    assert_eq!(table.len(), 2);
    for record in &table {
        assert_eq!(record.boards, 1_712_304);
        assert_eq!(record.ties, 1_712_304);
        assert_eq!(record.wins, 0);
        assert_eq!(record.losses, 0);
        assert_eq!(record.outs, Some(vec![]));
    }
}

#[test]
fn a_made_hand_that_cannot_be_caught_wins_every_river() {
    let table = equities(
        strings(&["AhAd", "KdKc"]),
        "AsAcKh2d".to_string(),
        "".to_string(),
        strength,
    )
    .unwrap();
    let (a, b) = (&table[0], &table[1]);
    assert_eq!((a.wins, a.losses, a.ties, a.boards), (44, 0, 0, 44));
    assert_eq!((b.wins, b.losses, b.ties, b.boards), (0, 44, 0, 44));
    assert_eq!(a.win_rate(), Rate { num: 44, den: 44 });
    assert_eq!(b.win_rate(), Rate { num: 0, den: 44 });
    assert_eq!(a.outs, None);
    assert_eq!(b.outs, Some(vec![]));
}

#[test]
fn hands_that_play_the_board_tie_on_every_river() {
    let table = equities(
        strings(&["2c3c", "2d3d"]),
        "AsAcAdAh".to_string(),
        "".to_string(),
        strength,
    )
    .unwrap();
    for record in &table {
        assert_eq!(record.boards, 44);
        assert_eq!(record.tie_rate(), Rate { num: 44, den: 44 });
        assert_eq!(record.win_rate(), Rate { num: 0, den: 44 });
        assert_eq!(record.lose_rate(), Rate { num: 0, den: 44 });
        assert_eq!(record.outs, Some(vec![]));
    }
}

#[test]
fn a_drawing_hand_is_told_its_outs_in_deck_order() {
    let table = equities(
        strings(&["AhAd", "KsQs"]),
        "2s7s9hJc".to_string(),
        "".to_string(),
        strength,
    )
    .unwrap();
    let (a, b) = (&table[0], &table[1]);
    assert_eq!((a.wins, a.losses, a.ties), (32, 12, 0));
    assert_eq!((b.wins, b.losses, b.ties), (12, 32, 0));
    assert_eq!(a.outs, None);
    let expected: Vec<Vec<String>> = [
        "3s", "4s", "5s", "6s", "8s", "9s", "Tc", "Td", "Th", "Ts", "Js", "As",
    ]
    .iter()
    .map(|card| vec![card.to_string()])
    .collect();
    assert_eq!(b.outs, Some(expected));
}

#[test]
fn every_out_scored_again_makes_the_player_the_only_winner() {
    let hands = ["AhAd", "KsQs", "7c7d"];
    let flop = "2s7s9h";
    let table = flop_equities(strings(&hands), flop.to_string(), "".to_string(), strength).unwrap();
    let mut checked = 0;
    for (p, record) in table.iter().enumerate() {
        let outs = match &record.outs {
            Some(outs) => outs,
            None => continue,
        };
        assert_eq!(outs.len() as u32, record.wins);
        for out in outs {
            assert_eq!(out.len(), 2);
            let board = format!("{}{}{}", flop, out[0], out[1]);
            let scores: Vec<u16> = hands
                .iter()
                .map(|hand| score_of(&format!("{}{}", hand, board)))
                .collect();
            for (q, score) in scores.iter().enumerate() {
                if q != p {
                    assert!(*score < scores[p]);
                }
            }
            checked += 1;
        }
    }
    assert!(checked > 0);
}

/// Scores the player who holds the two of clubs by the last card: 2 where
/// its identifier is even, 0 where it is odd. Everyone else scores 1.
fn by_parity_of_the_last_card(cards: &[usize]) -> u16 {
    if cards[0] == 0 {
        if cards[cards.len() - 1] % 2 == 0 {
            2
        } else {
            0
        }
    } else {
        1
    }
}

#[test]
fn no_outs_for_a_player_who_wins_half_of_the_boards() {
    let table = equities(
        strings(&["2c2d", "3c3d"]),
        "4c4d5c5d".to_string(),
        "".to_string(),
        by_parity_of_the_last_card,
    )
    .unwrap();
    let (a, b) = (&table[0], &table[1]);
    assert_eq!((a.wins, a.losses, a.ties, a.boards), (22, 22, 0, 44));
    assert_eq!((b.wins, b.losses, b.ties, b.boards), (22, 22, 0, 44));
    assert_eq!(a.outs, None);
    assert_eq!(b.outs, None);
}

#[test]
fn outs_for_a_player_who_wins_just_under_half_of_the_boards() {
    let table = equities(
        strings(&["2c2d", "3c3d"]),
        "4c4d5c5d".to_string(),
        "6c".to_string(),
        by_parity_of_the_last_card,
    )
    .unwrap();
    let (a, b) = (&table[0], &table[1]);
    assert_eq!((a.wins, a.losses, a.boards), (21, 22, 43));
    assert_eq!((b.wins, b.losses, b.boards), (22, 21, 43));
    assert_eq!(b.outs, None);
    let outs = a.outs.clone().unwrap();
    assert_eq!(outs.len(), 21);
    assert_eq!(outs[0], vec!["2h".to_string()]);
    assert_eq!(outs[1], vec!["3h".to_string()]);
    assert_eq!(outs[20], vec!["Ah".to_string()]);
    for out in &outs {
        assert_eq!(parse_card_ids(&out[0]).unwrap()[0] % 2, 0);
    }
}

#[test]
fn the_same_inputs_give_the_same_report() {
    let run = || {
        flop_equities(
            strings(&["AhAd", "KsQs", "7c7d"]),
            "2s7s9h".to_string(),
            "Tc".to_string(),
            strength,
        )
    };
    let first = run();
    let second = run();
    assert!(first.is_ok());
    assert_eq!(first, second);
}

#[test]
fn records_come_in_the_order_of_the_hands_and_keep_their_text() {
    let table = equities(
        strings(&["ah AD", "KsQs"]),
        "2s7s9hJc".to_string(),
        "".to_string(),
        strength,
    )
    .unwrap();
    assert_eq!(table[0].hand, "ah AD");
    assert_eq!(table[1].hand, "KsQs");
    assert_eq!(table[0].wins, 32);
}

fn never_called(_: &[usize]) -> u16 {
    panic!("no board is scored once an input is rejected")
}

#[test]
fn a_bad_hand_stops_everything() {
    assert_eq!(
        equities(
            strings(&["AhKh", "QsQ"]),
            "2c7d9hJs".to_string(),
            "".to_string(),
            never_called
        ),
        Err(ParseError::OddLength(3))
    );
    assert_eq!(
        flop_equities(
            strings(&["AhKh", "Q1Qd"]),
            "2c7d9h".to_string(),
            "".to_string(),
            never_called
        ),
        Err(ParseError::InvalidSuit(b'1'))
    );
    assert_eq!(
        preflop_equities(strings(&["XhKh"]), "".to_string(), never_called),
        Err(ParseError::InvalidRank(b'X'))
    );
}

#[test]
fn a_bad_board_or_bad_dead_cards_stop_everything() {
    assert_eq!(
        equities(
            strings(&["AhKh"]),
            "2c7d9hJ".to_string(),
            "".to_string(),
            never_called
        ),
        Err(ParseError::OddLength(7))
    );
    assert_eq!(
        equities(
            strings(&["AhKh"]),
            "2c7d9hJs".to_string(),
            "Zz".to_string(),
            never_called
        ),
        Err(ParseError::InvalidRank(b'Z'))
    );
    assert_eq!(
        preflop_equities(strings(&["AhKh"]), "3y".to_string(), never_called),
        Err(ParseError::InvalidSuit(b'y'))
    );
}

#[test]
fn the_first_bad_input_gives_the_error() {
    assert_eq!(
        equities(
            strings(&["AhKh", "Qx", "J"]),
            "2".to_string(),
            "Zz".to_string(),
            never_called
        ),
        Err(ParseError::InvalidSuit(b'x'))
    );
    assert_eq!(
        equities(
            strings(&["AhKh"]),
            "2y".to_string(),
            "Zz".to_string(),
            never_called
        ),
        Err(ParseError::InvalidSuit(b'y'))
    );
}

#[test]
fn an_empty_deck_gives_zero_rates_and_no_outs() {
    let every_other_card: String = (4..52)
        .map(poker_odds::cards::card_id_to_string)
        .collect::<Vec<String>>()
        .join(" ");
    for slots in [1, 2, 5] {
        let hands = strings(&["2c2d", "2h2s"]);
        let table = match slots {
            1 => equities(hands, "".to_string(), every_other_card.clone(), never_called),
            2 => flop_equities(hands, "".to_string(), every_other_card.clone(), never_called),
            _ => preflop_equities(hands, every_other_card.clone(), never_called),
        }
        .unwrap();
        assert_eq!(table.len(), 2);
        for record in &table {
            assert_eq!((record.wins, record.losses, record.ties, record.boards), (0, 0, 0, 0));
            assert_eq!(record.win_rate(), Rate { num: 0, den: 1 });
            assert_eq!(record.lose_rate(), Rate { num: 0, den: 1 });
            assert_eq!(record.tie_rate(), Rate { num: 0, den: 1 });
            assert_eq!(record.outs, None);
        }
    }
}

#[test]
fn a_deck_smaller_than_the_open_slots_gives_no_boards() {
    let dead: String = (4..50)
        .map(poker_odds::cards::card_id_to_string)
        .collect::<Vec<String>>()
        .join("");
    let table = preflop_equities(strings(&["2c2d", "2h2s"]), dead.clone(), never_called).unwrap();
    assert_eq!(table[0].boards, 0);
    let table = flop_equities(strings(&["2c2d", "2h2s"]), "".to_string(), dead, |_: &[usize]| 1)
        .unwrap();
    assert_eq!(table[0].boards, 1);
    assert_eq!(table[0].ties, 1);
}

#[test]
fn no_players_no_records() {
    let table = equities(vec![], "2c7d9hJs".to_string(), "".to_string(), never_called).unwrap();
    assert!(table.is_empty());
}

#[test]
fn a_card_used_twice_shrinks_the_deck_silently() {
    let table = equities(
        strings(&["AhKh", "AhQd"]),
        "2c7d9hJs".to_string(),
        "2c".to_string(),
        |_: &[usize]| 0,
    )
    .unwrap();
    assert_eq!(table[0].boards, 52 - 7);
}

/// Player 0 wins where the runout holds the ace of spades; otherwise
/// player 1 does.
fn ace_of_spades_for_the_first(cards: &[usize]) -> u16 {
    let first = cards[0] == 0;
    let ace = cards[2..].contains(&51);
    if first == ace {
        2
    } else {
        1
    }
}

fn cards_from(low: usize, high: usize) -> String {
    (low..high)
        .map(poker_odds::cards::card_id_to_string)
        .collect::<Vec<String>>()
        .join("")
}

#[test]
fn flop_outs_are_pairs_in_the_order_of_enumeration() {
    // The deck is Ac Ad Ah As: six pairs, three of them with the ace of spades.
    let table = flop_equities(
        strings(&["2c2d", "2h2s"]),
        "".to_string(),
        cards_from(4, 48),
        ace_of_spades_for_the_first,
    )
    .unwrap();
    assert_eq!(table[0].boards, 6);
    assert_eq!((table[0].wins, table[0].losses), (3, 3));
    assert_eq!((table[1].wins, table[1].losses), (3, 3));
    assert_eq!(table[0].outs, None);
    assert_eq!(table[1].outs, None);
    // With the ace of hearts dead too the deck is Ac Ad As: three pairs.
    let table = flop_equities(
        strings(&["2c2d", "2h2s"]),
        "".to_string(),
        format!("{}Ah", cards_from(4, 48)),
        ace_of_spades_for_the_first,
    )
    .unwrap();
    assert_eq!((table[0].wins, table[0].losses, table[0].boards), (2, 1, 3));
    assert_eq!(table[0].outs, None);
    assert_eq!(table[1].outs, Some(vec![strings(&["Ac", "Ad"])]));
    // With the king of spades alive the deck is Ks Ac Ad Ah As: ten pairs.
    let table = flop_equities(
        strings(&["2c2d", "2h2s"]),
        "".to_string(),
        cards_from(4, 47),
        ace_of_spades_for_the_first,
    )
    .unwrap();
    assert_eq!((table[0].wins, table[0].losses, table[0].boards), (4, 6, 10));
    assert_eq!(
        table[0].outs,
        Some(vec![
            strings(&["Ks", "As"]),
            strings(&["Ac", "As"]),
            strings(&["Ad", "As"]),
            strings(&["Ah", "As"])
        ])
    );
    assert_eq!(table[1].outs, None);
}

#[test]
fn preflop_outs_are_whole_boards() {
    // The deck is Kh Ks Ac Ad Ah As: six boards, one without the ace of spades.
    let table = preflop_equities(
        strings(&["2c2d", "2h2s"]),
        cards_from(4, 46),
        ace_of_spades_for_the_first,
    )
    .unwrap();
    assert_eq!(table[0].boards, 6);
    assert_eq!((table[0].wins, table[0].losses), (5, 1));
    assert_eq!(table[0].outs, None);
    assert_eq!(
        table[1].outs,
        Some(vec![strings(&["Kh", "Ks", "Ac", "Ad", "Ah"])])
    );
}

#[test]
fn the_known_board_comes_before_the_runout() {
    // The scorer sees two hole cards, the four known cards, then the river.
    let river_is_last = |cards: &[usize]| -> u16 {
        assert_eq!(cards.len(), 7);
        assert_eq!(&cards[2..6], &[0, 21, 30, 39]);
        if cards[0] == 50 && cards[1] == 46 {
            cards[6] as u16
        } else {
            assert_eq!(&cards[..2], &[43, 41]);
            21
        }
    };
    let table = equities(
        strings(&["AhKh", "QsQd"]),
        "2c7d9hJs".to_string(),
        "".to_string(),
        river_is_last,
    )
    .unwrap();
    // The seven of diamonds is card 21 and on the board: 24 cards of the deck
    // come after it, 20 before it.
    assert_eq!((table[0].wins, table[0].losses, table[0].ties), (24, 20, 0));
    assert_eq!((table[1].wins, table[1].losses, table[1].ties), (20, 24, 0));
}

#[test]
fn players_are_scored_on_hole_cards_then_board() {
    let players: Vec<Vec<usize>> = vec![vec![50, 46], vec![3, 7], vec![]];
    let board: Vec<usize> = vec![10, 20, 30, 40, 51];
    let first_card = |cards: &[usize]| cards[0] as u16;
    assert_eq!(evaluate_players(&players, &board, &first_card), vec![50, 3, 10]);
    let count = |cards: &[usize]| cards.len() as u16;
    assert_eq!(evaluate_players(&players, &board, &count), vec![7, 7, 5]);
    let sixth = |cards: &[usize]| cards[5] as u16;
    assert_eq!(evaluate_players(&players[..2], &board, &sixth), vec![40, 40]);
    let nobody: Vec<Vec<usize>> = vec![];
    assert_eq!(evaluate_players(&nobody, &board, &count), Vec::<u16>::new());
}

#[test]
fn rates_are_counts_over_boards() {
    assert_eq!(rate(3, 12), Rate { num: 3, den: 12 });
    assert_eq!(rate(0, 7), Rate { num: 0, den: 7 });
    assert_eq!(rate(7, 7), Rate { num: 7, den: 7 });
    assert_eq!(rate(0, 0), Rate { num: 0, den: 1 });
}

#[test]
fn the_three_rates_add_up_to_one() {
    let table = flop_equities(
        strings(&["AhAd", "KsQs", "7c7d"]),
        "2s7s9h".to_string(),
        "".to_string(),
        strength,
    )
    .unwrap();
    for record in &table {
        let (w, l, t) = (record.win_rate(), record.lose_rate(), record.tie_rate());
        assert_eq!(w.den, record.boards);
        assert_eq!(l.den, w.den);
        assert_eq!(t.den, w.den);
        assert_eq!(w.num + l.num + t.num, w.den);
        let sum = w.num as f64 / w.den as f64
            + l.num as f64 / l.den as f64
            + t.num as f64 / t.den as f64;
        assert!((sum - 1.0).abs() < 1e-12);
    }
}

#[test]
fn assembles_records_and_writes_outs_only_below_half() {
    let hands = strings(&["AhKh", "QsQd", "2c2d"]);
    let outs: Vec<Vec<Vec<usize>>> = vec![
        vec![vec![0, 1], vec![2, 3]],
        vec![vec![50, 51]],
        vec![],
    ];
    let table = assemble(&hands, &[5, 4, 0], &[3, 5, 9], &[2, 1, 1], 10, &outs);
    assert_eq!(
        table,
        vec![
            PlayerEquity {
                hand: "AhKh".to_string(),
                wins: 5,
                losses: 3,
                ties: 2,
                boards: 10,
                outs: None
            },
            PlayerEquity {
                hand: "QsQd".to_string(),
                wins: 4,
                losses: 5,
                ties: 1,
                boards: 10,
                outs: Some(vec![strings(&["Ah", "As"])])
            },
            PlayerEquity {
                hand: "2c2d".to_string(),
                wins: 0,
                losses: 9,
                ties: 1,
                boards: 10,
                outs: Some(vec![])
            },
        ]
    );
}

#[test]
fn writes_runouts_in_card_notation() {
    assert_eq!(format_runout(&[50, 0, 33]), strings(&["Ah", "2c", "Td"]));
    assert_eq!(format_runout(&[]), Vec::<String>::new());
    assert_eq!(
        format_outs(&[vec![51], vec![4, 5]]),
        vec![strings(&["As"]), strings(&["3c", "3d"])]
    );
}
