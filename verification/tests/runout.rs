use poker_odds::runout::{cards_of, Combinations};

fn all_of(n: usize, k: usize) -> Vec<Vec<usize>> {
    let mut cursor = Combinations::new(n, k);
    let mut seen: Vec<Vec<usize>> = Vec::new();
    loop {
        match cursor.current() {
            None => return seen,
            Some(idx) => seen.push(idx.clone()),
        }
        cursor.advance();
    }
}

fn count_of(n: usize, k: usize) -> u64 {
    let mut cursor = Combinations::new(n, k);
    let mut count: u64 = 0;
    while cursor.current().is_some() {
        count += 1;
        cursor.advance();
    }
    count
}

#[test]
fn single_positions_in_order() {
    assert_eq!(all_of(4, 1), vec![vec![0], vec![1], vec![2], vec![3]]);
}

#[test]
fn pairs_in_lexicographic_order() {
    assert_eq!(
        all_of(4, 2),
        vec![
            vec![0, 1],
            vec![0, 2],
            vec![0, 3],
            vec![1, 2],
            vec![1, 3],
            vec![2, 3]
        ]
    );
}

#[test]
fn fives_out_of_six_in_lexicographic_order() {
    assert_eq!(
        all_of(6, 5),
        vec![
            vec![0, 1, 2, 3, 4],
            vec![0, 1, 2, 3, 5],
            vec![0, 1, 2, 4, 5],
            vec![0, 1, 3, 4, 5],
            vec![0, 2, 3, 4, 5],
            vec![1, 2, 3, 4, 5]
        ]
    );
}

#[test]
fn choosing_everything_gives_one_combination() {
    assert_eq!(all_of(3, 3), vec![vec![0, 1, 2]]);
}

#[test]
fn choosing_nothing_gives_the_empty_combination() {
    assert_eq!(all_of(3, 0), vec![Vec::<usize>::new()]);
    assert_eq!(all_of(0, 0), vec![Vec::<usize>::new()]);
}

#[test]
fn choosing_too_many_gives_nothing() {
    assert_eq!(all_of(2, 3), Vec::<Vec<usize>>::new());
    assert_eq!(all_of(0, 1), Vec::<Vec<usize>>::new());
    assert_eq!(all_of(4, 5), Vec::<Vec<usize>>::new());
}

#[test]
fn a_finished_cursor_stays_finished() {
    let mut cursor = Combinations::new(2, 2);
    assert_eq!(cursor.current(), Some(&vec![0, 1]));
    cursor.advance();
    assert_eq!(cursor.current(), None);
    cursor.advance();
    assert_eq!(cursor.current(), None);
    let mut none = Combinations::new(1, 2);
    assert_eq!(none.current(), None);
    none.advance();
    assert_eq!(none.current(), None);
}

#[test]
fn a_new_cursor_starts_over() {
    let first = all_of(5, 3);
    let second = all_of(5, 3);
    assert_eq!(first, second);
    assert_eq!(first.len(), 10);
}

#[test]
fn combinations_ascend_inside_and_between() {
    let seen = all_of(7, 3);
    assert_eq!(seen.len(), 35);
    for c in &seen {
        assert_eq!(c.len(), 3);
        assert!(c[0] < c[1] && c[1] < c[2] && c[2] < 7);
    }
    for i in 1..seen.len() {
        assert!(seen[i - 1] < seen[i]);
    }
}

#[test]
fn every_pair_is_enumerated() {
    let seen = all_of(6, 2);
    for a in 0..6 {
        for b in (a + 1)..6 {
            assert!(seen.contains(&vec![a, b]));
        }
    }
    assert_eq!(seen.len(), 15);
}

#[test]
fn counts_are_binomial() {
    assert_eq!(count_of(44, 1), 44);
    assert_eq!(count_of(45, 2), 990);
    assert_eq!(count_of(52, 2), 1326);
    assert_eq!(count_of(10, 5), 252);
    assert_eq!(count_of(20, 5), 15504);
}

#[test]
fn five_out_of_forty_eight() {
    assert_eq!(count_of(48, 5), 1_712_304);
}

#[test]
fn cards_at_positions() {
    let deck: Vec<usize> = vec![1, 4, 9, 16, 25];
    assert_eq!(cards_of(&deck, &[0, 2, 4]), vec![1, 9, 25]);
    assert_eq!(cards_of(&deck, &[3]), vec![16]);
    assert_eq!(cards_of(&deck, &[]), Vec::<usize>::new());
    assert_eq!(cards_of(&deck, &[4, 0]), vec![25, 1]);
}
