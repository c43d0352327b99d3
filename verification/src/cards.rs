//! The card and deck model.
//!
//! A card is a dense identifier in `0..52`, `rank * 4 + suit`, with the ranks
//! ordered `2 3 4 5 6 7 8 9 T J Q K A` and the suits ordered clubs, diamonds,
//! hearts, spades. Card notation is two bytes per card, rank then suit, in
//! either case; spaces between or inside cards are ignored.

use vstd::prelude::*;
use vstd::string::*;

verus! {

/// Number of cards in the universe.
pub const DECK_SIZE: usize = 52;

/// Why a piece of card notation was rejected.
#[derive(Clone, Copy, Debug, PartialEq, Eq, Structural)]
pub enum ParseError {
    /// Once the spaces are removed an odd number of bytes is left; that number
    /// is the payload.
    OddLength(usize),
    /// The rank byte, upper-cased, is none of `23456789TJQKA`.
    InvalidRank(u8),
    /// The suit byte, lower-cased, is none of `cdhs`.
    InvalidSuit(u8),
}

/// The byte that separates cards and is dropped before parsing.
pub open spec fn is_space(b: u8) -> bool {
    b == (' ' as u8)
}

/// ASCII upper-casing of one byte; every other byte is left alone.
pub open spec fn upper(b: u8) -> u8 {
    if ('a' as u8) <= b && b <= ('z' as u8) {
        (b - 32) as u8
    } else {
        b
    }
}

/// ASCII lower-casing of one byte; every other byte is left alone.
pub open spec fn lower(b: u8) -> u8 {
    if ('A' as u8) <= b && b <= ('Z' as u8) {
        (b + 32) as u8
    } else {
        b
    }
}

/// Index of an upper-cased rank byte, `2` lowest and `A` highest.
pub open spec fn rank_index(b: u8) -> Option<usize> {
    if ('2' as u8) <= b && b <= ('9' as u8) {
        Some((b - ('2' as u8)) as usize)
    } else if b == ('T' as u8) {
        Some(8usize)
    } else if b == ('J' as u8) {
        Some(9usize)
    } else if b == ('Q' as u8) {
        Some(10usize)
    } else if b == ('K' as u8) {
        Some(11usize)
    } else if b == ('A' as u8) {
        Some(12usize)
    } else {
        None
    }
}

/// Index of a lower-cased suit byte: clubs, diamonds, hearts, spades.
pub open spec fn suit_index(b: u8) -> Option<usize> {
    if b == ('c' as u8) {
        Some(0usize)
    } else if b == ('d' as u8) {
        Some(1usize)
    } else if b == ('h' as u8) {
        Some(2usize)
    } else if b == ('s' as u8) {
        Some(3usize)
    } else {
        None
    }
}

/// The card written as rank byte `r` followed by suit byte `s`. A bad rank is
/// reported before a bad suit.
pub open spec fn card_code(r: u8, s: u8) -> Result<usize, ParseError> {
    match rank_index(upper(r)) {
        None => Err(ParseError::InvalidRank(upper(r))),
        Some(rank) => match suit_index(lower(s)) {
            None => Err(ParseError::InvalidSuit(lower(s))),
            Some(suit) => Ok((rank * 4 + suit) as usize),
        },
    }
}

/// The first `n` cards of space-free notation `text`, read left to right; the
/// first card that is not one stops the reading with its error.
pub open spec fn cards_in(text: Seq<u8>, n: nat) -> Result<Seq<usize>, ParseError>
    decreases n,
{
    if n == 0 {
        Ok(Seq::empty())
    } else {
        match cards_in(text, (n - 1) as nat) {
            Err(e) => Err(e),
            Ok(ids) => match card_code(text[2 * (n - 1)], text[2 * (n - 1) + 1]) {
                Err(e) => Err(e),
                Ok(id) => Ok(ids.push(id)),
            },
        }
    }
}

/// `bytes` without its spaces.
pub open spec fn without_spaces(bytes: Seq<u8>) -> Seq<u8> {
    bytes.filter(|b: u8| !is_space(b))
}

/// What card notation means: the cards it lists, in order, or why it lists
/// none. An odd length is reported before any bad card.
pub open spec fn parse_cards(bytes: Seq<u8>) -> Result<Seq<usize>, ParseError> {
    let text = without_spaces(bytes);
    if text.len() % 2 != 0 {
        Err(ParseError::OddLength(text.len() as usize))
    } else {
        cards_in(text, text.len() / 2)
    }
}

/// What card notation means, given as text.
pub open spec fn parse_text(text: Seq<char>) -> Result<Seq<usize>, ParseError> {
    parse_cards(vstd::utf8::encode_utf8(text))
}

/// Every identifier in `ids` names a card.
pub open spec fn all_cards(ids: Seq<usize>) -> bool {
    forall|i: int| 0 <= i < ids.len() ==> ids[i] < DECK_SIZE
}

/// The rank character of rank index `r`.
pub open spec fn rank_char(r: int) -> char {
    if r == 0 {
        '2'
    } else if r == 1 {
        '3'
    } else if r == 2 {
        '4'
    } else if r == 3 {
        '5'
    } else if r == 4 {
        '6'
    } else if r == 5 {
        '7'
    } else if r == 6 {
        '8'
    } else if r == 7 {
        '9'
    } else if r == 8 {
        'T'
    } else if r == 9 {
        'J'
    } else if r == 10 {
        'Q'
    } else if r == 11 {
        'K'
    } else {
        'A'
    }
}

/// The suit character of suit index `s`.
pub open spec fn suit_char(s: int) -> char {
    if s == 0 {
        'c'
    } else if s == 1 {
        'd'
    } else if s == 2 {
        'h'
    } else {
        's'
    }
}

/// The notation of card `id`: its rank character, then its suit character.
pub open spec fn card_text(id: int) -> Seq<char> {
    seq![rank_char(id / 4), suit_char(id % 4)]
}

/// The cards a deal can still draw once `excluded` are gone, lowest
/// identifier first.
pub open spec fn remaining_deck(excluded: Seq<usize>) -> Seq<usize> {
    Seq::new(DECK_SIZE as nat, |c: int| c as usize).filter(|c: usize| !excluded.contains(c))
}

fn to_upper(b: u8) -> (r: u8)
    ensures
        r == upper(b),
{
    if ('a' as u8) <= b && b <= ('z' as u8) {
        b - 32
    } else {
        b
    }
}

fn to_lower(b: u8) -> (r: u8)
    ensures
        r == lower(b),
{
    if ('A' as u8) <= b && b <= ('Z' as u8) {
        b + 32
    } else {
        b
    }
}

fn rank_of(b: u8) -> (r: Option<usize>)
    ensures
        r == rank_index(b),
{
    if ('2' as u8) <= b && b <= ('9' as u8) {
        Some((b - ('2' as u8)) as usize)
    } else if b == ('T' as u8) {
        Some(8)
    } else if b == ('J' as u8) {
        Some(9)
    } else if b == ('Q' as u8) {
        Some(10)
    } else if b == ('K' as u8) {
        Some(11)
    } else if b == ('A' as u8) {
        Some(12)
    } else {
        None
    }
}

fn suit_of(b: u8) -> (r: Option<usize>)
    ensures
        r == suit_index(b),
{
    if b == ('c' as u8) {
        Some(0)
    } else if b == ('d' as u8) {
        Some(1)
    } else if b == ('h' as u8) {
        Some(2)
    } else if b == ('s' as u8) {
        Some(3)
    } else {
        None
    }
}

/// Reads one card from its rank byte and its suit byte.
pub fn parse_card(r: u8, s: u8) -> (res: Result<usize, ParseError>)
    ensures
        res == card_code(r, s),
        res matches Ok(id) ==> id < DECK_SIZE,
{
    let r_up: u8 = to_upper(r);
    match rank_of(r_up) {
        None => Err(ParseError::InvalidRank(r_up)),
        Some(rank) => {
            let s_low: u8 = to_lower(s);
            match suit_of(s_low) {
                None => Err(ParseError::InvalidSuit(s_low)),
                Some(suit) => Ok(rank * 4 + suit),
            }
        },
    }
}

/// Copies `bytes` without its spaces.
pub fn strip_spaces(bytes: &[u8]) -> (text: Vec<u8>)
    ensures
        text@ == without_spaces(bytes@),
{
    let mut text: Vec<u8> = Vec::new();
    let mut i: usize = 0;
    proof {
        reveal(Seq::filter);
        assert(bytes@.take(0) =~= Seq::<u8>::empty());
    }
    while i < bytes.len()
        invariant
            i <= bytes.len(),
            text@ == without_spaces(bytes@.take(i as int)),
        decreases bytes.len() - i,
    {
        let b: u8 = bytes[i];
        proof {
            reveal(Seq::filter);
            assert(bytes@.take(i + 1).drop_last() =~= bytes@.take(i as int));
            assert(bytes@.take(i + 1).last() == b);
        }
        if b != (' ' as u8) {
            text.push(b);
        }
        i += 1;
    }
    proof {
        assert(bytes@.take(bytes.len() as int) =~= bytes@);
    }
    text
}

/// Parses card notation into card identifiers.
///
/// Spaces are dropped first. What is left must hold two bytes per card, a
/// rank out of `23456789TJQKA` and a suit out of `cdhs`, in either case. Empty
/// notation lists no cards. The result is `parse_text` of `s`: an odd
/// length is reported first, then the leftmost bad card, its rank before its
/// suit.
pub fn parse_card_ids(s: &str) -> (res: Result<Vec<usize>, ParseError>)
    ensures
        match res {
            Ok(ids) => parse_text(s@) == Ok::<Seq<usize>, ParseError>(ids@) && all_cards(ids@),
            Err(e) => parse_text(s@) == Err::<Seq<usize>, ParseError>(e),
        },
{
    let text = strip_spaces(s.as_bytes());
    if text.len() % 2 != 0 {
        return Err(ParseError::OddLength(text.len()));
    }
    let count: usize = text.len() / 2;
    let mut ids: Vec<usize> = Vec::new();
    let mut i: usize = 0;
    while i < count
        invariant
            i <= count,
            count == text.len() / 2,
            text.len() % 2 == 0,
            text@ == without_spaces(s.spec_bytes()),
            cards_in(text@, i as nat) == Ok::<Seq<usize>, ParseError>(ids@),
            all_cards(ids@),
        decreases count - i,
    {
        match parse_card(text[2 * i], text[2 * i + 1]) {
            Ok(id) => {
                ids.push(id);
            },
            Err(e) => {
                proof {
                    lemma_error_is_kept(text@, (i + 1) as nat, count as nat);
                }
                return Err(e);
            },
        }
        i += 1;
    }
    Ok(ids)
}

/// Once the first `n` cards have failed, reading further cards fails the same
/// way.
proof fn lemma_error_is_kept(text: Seq<u8>, n: nat, m: nat)
    requires
        n <= m,
        cards_in(text, n) is Err,
    ensures
        cards_in(text, m) == cards_in(text, n),
    decreases m,
{
    if n < m {
        lemma_error_is_kept(text, n, (m - 1) as nat);
    }
}

/// Writes card `id` in card notation: upper-case rank, lower-case suit.
pub fn card_id_to_string(id: usize) -> (res: String)
    requires
        id < DECK_SIZE,
    ensures
        res@ == card_text(id as int),
{
    let rank: usize = id / 4;
    let suit: usize = id % 4;
    proof {
        reveal_strlit("2");
        reveal_strlit("3");
        reveal_strlit("4");
        reveal_strlit("5");
        reveal_strlit("6");
        reveal_strlit("7");
        reveal_strlit("8");
        reveal_strlit("9");
        reveal_strlit("T");
        reveal_strlit("J");
        reveal_strlit("Q");
        reveal_strlit("K");
        reveal_strlit("A");
        reveal_strlit("c");
        reveal_strlit("d");
        reveal_strlit("h");
        reveal_strlit("s");
    }
    let rank_str = if rank == 0 {
        "2"
    } else if rank == 1 {
        "3"
    } else if rank == 2 {
        "4"
    } else if rank == 3 {
        "5"
    } else if rank == 4 {
        "6"
    } else if rank == 5 {
        "7"
    } else if rank == 6 {
        "8"
    } else if rank == 7 {
        "9"
    } else if rank == 8 {
        "T"
    } else if rank == 9 {
        "J"
    } else if rank == 10 {
        "Q"
    } else if rank == 11 {
        "K"
    } else {
        "A"
    };
    let suit_str = if suit == 0 {
        "c"
    } else if suit == 1 {
        "d"
    } else if suit == 2 {
        "h"
    } else {
        "s"
    };
    let mut res = String::from_str(rank_str);
    res.append(suit_str);
    assert(res@ =~= card_text(id as int));
    res
}

/// Builds the deck that is left once `excluded` are taken out of the 52
/// cards: every card that is not excluded, once, lowest identifier first. A
/// card that is excluded twice is taken out once, so the deck is then larger
/// than `52 - excluded.len()`.
pub fn build_deck(excluded: &[usize]) -> (deck: Vec<usize>)
    requires
        all_cards(excluded@),
    ensures
        deck@ == remaining_deck(excluded@),
        all_cards(deck@),
        forall|i: int, j: int| 0 <= i < j < deck.len() ==> deck[i] < deck[j],
        forall|c: usize| deck@.contains(c) <==> c < DECK_SIZE && !excluded@.contains(c),
        deck.len() + excluded@.to_set().len() == DECK_SIZE,
{
    let mut used: [bool; DECK_SIZE] = [false; DECK_SIZE];
    let mut i: usize = 0;
    while i < excluded.len()
        invariant
            i <= excluded.len(),
            all_cards(excluded@),
            forall|c: int|
                0 <= c < DECK_SIZE ==> (#[trigger] used[c] <==> excluded@.take(i as int).contains(
                    c as usize,
                )),
        decreases excluded.len() - i,
    {
        let id: usize = excluded[i];
        let ghost before = used;
        used[id] = true;
        proof {
            let seen = excluded@.take(i as int);
            let now = excluded@.take(i + 1);
            assert forall|c: int| 0 <= c < DECK_SIZE implies (#[trigger] used[c]
                <==> now.contains(c as usize)) by {
                if seen.contains(c as usize) {
                    let j = choose|j: int| 0 <= j < seen.len() && seen[j] == c as usize;
                    assert(now[j] == c as usize);
                }
                if c == id {
                    assert(now[i as int] == id);
                }
                if now.contains(c as usize) {
                    let j = choose|j: int| 0 <= j < now.len() && now[j] == c as usize;
                    if j < i {
                        assert(seen[j] == c as usize);
                    }
                }
                assert(before[c] <==> seen.contains(c as usize));
            }
        }
        i += 1;
    }
    proof {
        assert(excluded@.take(excluded.len() as int) =~= excluded@);
    }
    let ghost universe = Seq::new(DECK_SIZE as nat, |c: int| c as usize);
    let ghost keep = |c: usize| !excluded@.contains(c);
    let mut deck: Vec<usize> = Vec::new();
    let mut c: usize = 0;
    proof {
        reveal(Seq::filter);
        assert(universe.take(0) =~= Seq::<usize>::empty());
    }
    while c < DECK_SIZE
        invariant
            c <= DECK_SIZE,
            universe == Seq::new(DECK_SIZE as nat, |c: int| c as usize),
            keep == |c: usize| !excluded@.contains(c),
            forall|d: int|
                0 <= d < DECK_SIZE ==> (#[trigger] used[d] <==> excluded@.contains(d as usize)),
            deck@ == universe.take(c as int).filter(keep),
        decreases DECK_SIZE - c,
    {
        proof {
            reveal(Seq::filter);
            assert(universe.take(c + 1).drop_last() =~= universe.take(c as int));
            assert(universe.take(c + 1).last() == c);
        }
        if !used[c] {
            deck.push(c);
        }
        c += 1;
    }
    proof {
        assert(universe.take(DECK_SIZE as int) =~= universe);
        lemma_deck_is_the_complement(excluded@);
        lemma_deck_size(excluded@);
    }
    deck
}

/// The cards below `m` that are not excluded, lowest first.
spec fn deck_below(excluded: Seq<usize>, m: int) -> Seq<usize> {
    Seq::new(DECK_SIZE as nat, |c: int| c as usize).take(m).filter(
        |c: usize| !excluded.contains(c),
    )
}

/// The excluded cards below `m`.
spec fn excluded_below(excluded: Seq<usize>, m: int) -> Set<usize> {
    Set::new(|c: usize| c < m && excluded.contains(c))
}

/// Below `m` the deck ascends, holds the cards that are not excluded and no
/// others, and makes up the `m` lowest cards together with the excluded ones.
proof fn lemma_deck_below(excluded: Seq<usize>, m: int)
    requires
        0 <= m <= DECK_SIZE,
    ensures
        forall|i: int, j: int|
            0 <= i < j < deck_below(excluded, m).len() ==> deck_below(excluded, m)[i]
                < deck_below(excluded, m)[j],
        forall|c: usize|
            deck_below(excluded, m).contains(c) <==> c < m && !excluded.contains(c),
        excluded_below(excluded, m).finite(),
        deck_below(excluded, m).len() + excluded_below(excluded, m).len() == m,
    decreases m,
{
    reveal(Seq::filter);
    let universe = Seq::new(DECK_SIZE as nat, |c: int| c as usize);
    let now = deck_below(excluded, m);
    if m == 0 {
        assert(universe.take(0) =~= Seq::<usize>::empty());
        assert(excluded_below(excluded, 0) =~= Set::<usize>::empty());
    } else {
        lemma_deck_below(excluded, m - 1);
        let before = deck_below(excluded, m - 1);
        let last = (m - 1) as usize;
        assert(universe.take(m).drop_last() =~= universe.take(m - 1));
        assert(universe.take(m).last() == last);
        if excluded.contains(last) {
            assert(now == before);
            assert(excluded_below(excluded, m) =~= excluded_below(excluded, m - 1).insert(last));
        } else {
            assert(now == before.push(last));
            assert(excluded_below(excluded, m) =~= excluded_below(excluded, m - 1));
            assert forall|i: int, j: int| 0 <= i < j < now.len() implies now[i] < now[j] by {
                if j == now.len() - 1 {
                    assert(before.contains(before[i]));
                }
            }
        }
        assert forall|c: usize| now.contains(c) <==> c < m && !excluded.contains(c) by {
            if now.contains(c) {
                let i = choose|i: int| 0 <= i < now.len() && now[i] == c;
                if i < before.len() {
                    assert(before.contains(before[i]));
                }
            }
            if c < m && !excluded.contains(c) {
                if c < m - 1 {
                    assert(before.contains(c));
                    let i = choose|i: int| 0 <= i < before.len() && before[i] == c;
                    assert(now[i] == c);
                } else {
                    assert(now[now.len() - 1] == c);
                }
            }
        }
    }
}

/// The deck holds exactly the cards that are not excluded, each once, in
/// ascending order of identifier.
pub proof fn lemma_deck_is_the_complement(excluded: Seq<usize>)
    ensures
        all_cards(remaining_deck(excluded)),
        forall|i: int, j: int|
            0 <= i < j < remaining_deck(excluded).len() ==> remaining_deck(excluded)[i]
                < remaining_deck(excluded)[j],
        forall|c: usize|
            remaining_deck(excluded).contains(c) <==> c < DECK_SIZE && !excluded.contains(c),
{
    let universe = Seq::new(DECK_SIZE as nat, |c: int| c as usize);
    assert(universe.take(DECK_SIZE as int) =~= universe);
    lemma_deck_below(excluded, DECK_SIZE as int);
    let deck = remaining_deck(excluded);
    assert(deck == deck_below(excluded, DECK_SIZE as int));
    assert forall|i: int| 0 <= i < deck.len() implies deck[i] < DECK_SIZE by {
        assert(deck.contains(deck[i]));
    }
}

/// The deck and the distinct excluded cards make up the 52 cards: where no
/// card is excluded twice, the deck has `52 - excluded.len()` cards.
pub proof fn lemma_deck_size(excluded: Seq<usize>)
    requires
        all_cards(excluded),
    ensures
        remaining_deck(excluded).len() + excluded.to_set().len() == DECK_SIZE,
        excluded.no_duplicates() ==> remaining_deck(excluded).len() + excluded.len()
            == DECK_SIZE,
{
    let universe = Seq::new(DECK_SIZE as nat, |c: int| c as usize);
    assert(universe.take(DECK_SIZE as int) =~= universe);
    lemma_deck_below(excluded, DECK_SIZE as int);
    assert(remaining_deck(excluded) == deck_below(excluded, DECK_SIZE as int));
    assert(excluded_below(excluded, DECK_SIZE as int) =~= excluded.to_set()) by {
        assert forall|c: usize| excluded.contains(c) implies c < DECK_SIZE by {
            let i = choose|i: int| 0 <= i < excluded.len() && excluded[i] == c;
            assert(excluded[i] < DECK_SIZE);
        }
    }
    if excluded.no_duplicates() {
        excluded.unique_seq_to_set();
    }
}

/// The notation of a card is two ASCII characters that are read back as the
/// card, whatever their case.
proof fn lemma_card_text_is_read_back(rank: int, suit: int)
    requires
        0 <= rank < 13,
        0 <= suit < 4,
    ensures
        rank_char(rank) as u32 <= 0x7f,
        suit_char(suit) as u32 <= 0x7f,
        !is_space(rank_char(rank) as u8),
        !is_space(suit_char(suit) as u8),
        card_code(rank_char(rank) as u8, suit_char(suit) as u8) == Ok::<usize, ParseError>(
            (rank * 4 + suit) as usize,
        ),
        card_code(lower(rank_char(rank) as u8), upper(suit_char(suit) as u8)) == Ok::<
            usize,
            ParseError,
        >((rank * 4 + suit) as usize),
{
}

/// Two bytes that are no spaces are read as one card.
proof fn lemma_two_bytes_are_one_card(r: u8, s: u8)
    requires
        !is_space(r),
        !is_space(s),
    ensures
        parse_cards(seq![r, s]) == match card_code(r, s) {
            Ok(id) => Ok::<Seq<usize>, ParseError>(seq![id]),
            Err(e) => Err(e),
        },
{
    let bytes = seq![r, s];
    assert(without_spaces(bytes) == bytes) by {
        reveal_with_fuel(Seq::filter, 3);
        assert(bytes.drop_last() =~= seq![r]);
        assert(bytes.drop_last().drop_last() =~= Seq::<u8>::empty());
        assert(without_spaces(bytes) =~= bytes);
    }
    assert(cards_in(bytes, 0) == Ok::<Seq<usize>, ParseError>(Seq::empty()));
    if let Ok(id) = card_code(r, s) {
        assert(Seq::<usize>::empty().push(id) =~= seq![id]);
    }
}

/// Writing a card and reading it back gives the card: the notation is
/// reversible, and reading does not depend on case.
pub proof fn lemma_card_text_round_trip(id: usize)
    requires
        id < DECK_SIZE,
    ensures
        card_text(id as int).len() == 2,
        card_code(card_text(id as int)[0] as u8, card_text(id as int)[1] as u8) == Ok::<
            usize,
            ParseError,
        >(id),
        card_code(lower(card_text(id as int)[0] as u8), upper(card_text(id as int)[1] as u8))
            == Ok::<usize, ParseError>(id),
        parse_text(card_text(id as int)) == Ok::<Seq<usize>, ParseError>(seq![id]),
{
    let rank = id as int / 4;
    let suit = id as int % 4;
    let text = card_text(id as int);
    lemma_card_text_is_read_back(rank, suit);
    assert(vstd::utf8::is_ascii_chars(text));
    vstd::utf8::is_ascii_chars_encode_utf8(text);
    let bytes = vstd::utf8::encode_utf8(text);
    assert(bytes =~= seq![text[0] as u8, text[1] as u8]);
    lemma_two_bytes_are_one_card(text[0] as u8, text[1] as u8);
}

/// The card of a two-byte notation decides its bytes up to case: no two
/// cards share a notation.
pub proof fn lemma_card_code_is_injective(r1: u8, s1: u8, r2: u8, s2: u8)
    requires
        card_code(r1, s1) is Ok,
        card_code(r1, s1) == card_code(r2, s2),
    ensures
        upper(r1) == upper(r2),
        lower(s1) == lower(s2),
{
}

} // verus!
