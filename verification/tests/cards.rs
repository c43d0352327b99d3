use poker_odds::cards::{
    build_deck, card_id_to_string, parse_card, parse_card_ids, strip_spaces, ParseError, DECK_SIZE,
};

#[test]
fn parses_one_card() {
    assert_eq!(parse_card_ids("Ah"), Ok(vec![50]));
    assert_eq!(parse_card_ids("2c"), Ok(vec![0]));
    assert_eq!(parse_card_ids("As"), Ok(vec![51]));
    assert_eq!(parse_card_ids("Td"), Ok(vec![33]));
}

#[test]
fn parses_a_board_in_order() {
    assert_eq!(parse_card_ids("Ah9hJd3d"), Ok(vec![50, 30, 37, 5]));
}

#[test]
fn parses_every_rank_and_suit() {
    assert_eq!(
        parse_card_ids("2c3c4c5c6c7c8c9cTcJcQcKcAc"),
        Ok(vec![0, 4, 8, 12, 16, 20, 24, 28, 32, 36, 40, 44, 48])
    );
    assert_eq!(parse_card_ids("2c2d2h2s"), Ok(vec![0, 1, 2, 3]));
}

#[test]
fn parsing_ignores_case() {
    assert_eq!(parse_card_ids("aH"), Ok(vec![50]));
    assert_eq!(parse_card_ids("ah"), Ok(vec![50]));
    assert_eq!(parse_card_ids("AH"), Ok(vec![50]));
    assert_eq!(parse_card_ids("tD kS jc QH"), Ok(vec![33, 47, 36, 42]));
}

#[test]
fn parsing_ignores_spaces() {
    assert_eq!(parse_card_ids("Ah 9h Jd 3d"), Ok(vec![50, 30, 37, 5]));
    assert_eq!(parse_card_ids(" A h9 h "), Ok(vec![50, 30]));
}

#[test]
fn empty_notation_lists_no_cards() {
    assert_eq!(parse_card_ids(""), Ok(vec![]));
    assert_eq!(parse_card_ids("   "), Ok(vec![]));
}

#[test]
fn odd_length_is_rejected() {
    assert_eq!(parse_card_ids("A"), Err(ParseError::OddLength(1)));
    assert_eq!(parse_card_ids("AhK"), Err(ParseError::OddLength(3)));
    assert_eq!(parse_card_ids("Ah K "), Err(ParseError::OddLength(3)));
}

#[test]
fn unknown_rank_is_rejected_with_its_upper_case_byte() {
    assert_eq!(parse_card_ids("Xh"), Err(ParseError::InvalidRank(b'X')));
    assert_eq!(parse_card_ids("xh"), Err(ParseError::InvalidRank(b'X')));
    assert_eq!(parse_card_ids("1h"), Err(ParseError::InvalidRank(b'1')));
    assert_eq!(parse_card_ids("0c"), Err(ParseError::InvalidRank(b'0')));
}

#[test]
fn unknown_suit_is_rejected_with_its_lower_case_byte() {
    assert_eq!(parse_card_ids("Ax"), Err(ParseError::InvalidSuit(b'x')));
    assert_eq!(parse_card_ids("AX"), Err(ParseError::InvalidSuit(b'x')));
    assert_eq!(parse_card_ids("A1"), Err(ParseError::InvalidSuit(b'1')));
}

#[test]
fn odd_length_comes_before_a_bad_card() {
    assert_eq!(parse_card_ids("XxA"), Err(ParseError::OddLength(3)));
}

#[test]
fn bad_rank_comes_before_bad_suit() {
    assert_eq!(parse_card_ids("Xx"), Err(ParseError::InvalidRank(b'X')));
}

#[test]
fn the_leftmost_bad_card_is_reported() {
    assert_eq!(parse_card_ids("AhAxZz"), Err(ParseError::InvalidSuit(b'x')));
    assert_eq!(parse_card_ids("AhZzAx"), Err(ParseError::InvalidRank(b'Z')));
}

#[test]
fn bytes_outside_ascii_are_bad_ranks_and_suits() {
    // "é" is two bytes, 0xC3 0xA9: read as a rank byte and a suit byte.
    assert_eq!(parse_card_ids("é"), Err(ParseError::InvalidRank(0xC3)));
    assert_eq!(parse_card_ids("Aé"), Err(ParseError::OddLength(3)));
    assert_eq!(parse_card_ids("Aé2"), Err(ParseError::InvalidSuit(0xC3)));
}

#[test]
fn one_card_from_two_bytes() {
    assert_eq!(parse_card(b'K', b'd'), Ok(45));
    assert_eq!(parse_card(b'k', b'D'), Ok(45));
    assert_eq!(parse_card(b'?', b'd'), Err(ParseError::InvalidRank(b'?')));
    assert_eq!(parse_card(b'K', b'?'), Err(ParseError::InvalidSuit(b'?')));
}

#[test]
fn spaces_are_stripped() {
    assert_eq!(strip_spaces(b" a b  c "), b"abc".to_vec());
    assert_eq!(strip_spaces(b""), Vec::<u8>::new());
    assert_eq!(strip_spaces(b"\tA h"), b"\tAh".to_vec());
}

#[test]
fn writes_cards() {
    assert_eq!(card_id_to_string(0), "2c");
    assert_eq!(card_id_to_string(3), "2s");
    assert_eq!(card_id_to_string(33), "Td");
    assert_eq!(card_id_to_string(50), "Ah");
    assert_eq!(card_id_to_string(51), "As");
}

#[test]
fn writing_and_reading_a_card_gives_it_back() {
    for id in 0..DECK_SIZE {
        let text = card_id_to_string(id);
        assert_eq!(text.len(), 2);
        assert_eq!(parse_card_ids(&text), Ok(vec![id]));
        assert_eq!(parse_card_ids(&text.to_lowercase()), Ok(vec![id]));
        assert_eq!(parse_card_ids(&text.to_uppercase()), Ok(vec![id]));
    }
}

#[test]
fn every_card_has_its_own_notation() {
    let mut seen: Vec<String> = Vec::new();
    for id in 0..DECK_SIZE {
        let text = card_id_to_string(id);
        assert!(!seen.contains(&text));
        seen.push(text);
    }
    assert_eq!(seen.len(), 52);
}

#[test]
fn full_deck_when_nothing_is_excluded() {
    let deck = build_deck(&[]);
    assert_eq!(deck, (0..52).collect::<Vec<usize>>());
}

#[test]
fn deck_leaves_out_the_excluded_cards_and_ascends() {
    let deck = build_deck(&[50, 0, 7, 51]);
    assert_eq!(deck.len(), 48);
    assert_eq!(deck[0], 1);
    assert_eq!(deck[47], 49);
    for c in [50usize, 0, 7, 51] {
        assert!(!deck.contains(&c));
    }
    for i in 1..deck.len() {
        assert!(deck[i - 1] < deck[i]);
    }
}

#[test]
fn deck_size_is_52_less_the_excluded_cards() {
    let hands = parse_card_ids("AhKh QsQd").unwrap();
    let board = parse_card_ids("2c7d9hJs").unwrap();
    let dead = parse_card_ids("3c").unwrap();
    let mut excluded = board.clone();
    excluded.extend_from_slice(&hands);
    excluded.extend_from_slice(&dead);
    let deck = build_deck(&excluded);
    assert_eq!(deck.len(), 52 - (2 * 2 + 4 + 1));
}

#[test]
fn a_card_excluded_twice_is_taken_out_once() {
    let deck = build_deck(&[5, 5, 5]);
    assert_eq!(deck.len(), 51);
    assert!(!deck.contains(&5));
}

#[test]
fn deck_is_empty_when_every_card_is_excluded() {
    let all: Vec<usize> = (0..52).collect();
    assert_eq!(build_deck(&all), Vec::<usize>::new());
}
