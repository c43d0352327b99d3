//! The runout enumerator.
//!
//! A runout fills the unknown slots of the board with cards of the deck. The
//! runouts of `k` slots are the combinations of `k` deck positions, each
//! written in ascending order, and they are visited in lexicographic order
//! of their positions: every combination once, none twice.

use vstd::prelude::*;

verus! {

/// The combinations of `k` positions out of `lo..n`, each ascending, in
/// lexicographic order: first those that start with `lo`, then the others.
pub open spec fn combos_from(lo: int, n: int, k: nat) -> Seq<Seq<int>>
    decreases k, n - lo,
{
    if k == 0 {
        seq![Seq::<int>::empty()]
    } else if lo >= n {
        Seq::<Seq<int>>::empty()
    } else {
        combos_from(lo + 1, n, (k - 1) as nat).map_values(|c: Seq<int>| seq![lo] + c)
            + combos_from(lo + 1, n, k)
    }
}

/// The combinations of `k` positions out of `0..n`, in the order in which
/// they are enumerated.
pub open spec fn combinations(n: nat, k: nat) -> Seq<Seq<int>> {
    combos_from(0, n as int, k)
}

/// The number of ways to choose `k` out of `n`.
pub open spec fn binomial(n: nat, k: nat) -> nat
    decreases n,
{
    if k == 0 {
        1
    } else if n == 0 {
        0
    } else {
        binomial((n - 1) as nat, (k - 1) as nat) + binomial((n - 1) as nat, k)
    }
}

/// `c` chooses `k` positions below `n` and lists them in ascending order.
pub open spec fn is_combination(c: Seq<int>, n: nat, k: nat) -> bool {
    &&& c.len() == k
    &&& forall|j: int| 0 <= j < c.len() ==> 0 <= #[trigger] c[j] < n
    &&& forall|i: int, j: int| 0 <= i < j < c.len() ==> c[i] < c[j]
}

/// `a` comes before `b` in lexicographic order: they agree up to some place,
/// and there `a` is smaller.
pub open spec fn lex_less(a: Seq<int>, b: Seq<int>) -> bool {
    exists|i: int|
        0 <= i < a.len() && i < b.len() && #[trigger] a[i] < b[i] && a.take(i) == b.take(i)
}

/// The cards of `deck` at the positions `c`.
pub open spec fn cards_at(deck: Seq<usize>, c: Seq<int>) -> Seq<usize> {
    c.map_values(|i: int| deck[i])
}

/// The runouts of `k` slots from `deck`, in the order of enumeration.
pub open spec fn runouts(deck: Seq<usize>, k: nat) -> Seq<Seq<usize>> {
    combinations(deck.len(), k).map_values(|c: Seq<int>| cards_at(deck, c))
}

/// Positions as mathematical integers.
pub open spec fn positions(idx: Seq<usize>) -> Seq<int> {
    idx.map_values(|i: usize| i as int)
}

/// A cursor over the combinations of `k` positions out of `0..n`, in
/// lexicographic order. It starts at the first one and is done once it has
/// been moved past the last.
pub struct Combinations {
    n: usize,
    k: usize,
    idx: Vec<usize>,
    live: bool,
    rank: Ghost<nat>,
}

impl Combinations {
    /// The cursor stands where it says it stands.
    pub closed spec fn wf(&self) -> bool {
        &&& self.rank@ <= combinations(self.n as nat, self.k as nat).len()
        &&& self.live <==> self.rank@ < combinations(self.n as nat, self.k as nat).len()
        &&& self.live ==> positions(self.idx@) == combinations(
            self.n as nat,
            self.k as nat,
        )[self.rank@ as int]
    }

    /// The number of positions to choose from.
    pub closed spec fn universe(&self) -> nat {
        self.n as nat
    }

    /// The number of positions in each combination.
    pub closed spec fn width(&self) -> nat {
        self.k as nat
    }

    /// How many combinations the cursor has been moved past.
    pub closed spec fn position(&self) -> nat {
        self.rank@
    }

    /// Every combination the cursor visits, in order.
    pub open spec fn all(&self) -> Seq<Seq<int>> {
        combinations(self.universe(), self.width())
    }

    /// The cursor has been moved past the last combination.
    pub open spec fn is_done(&self) -> bool {
        self.position() == self.all().len()
    }

    /// A cursor at the first combination of `k` positions out of `0..n`. With
    /// `k > n` there is none and the cursor is done at once; with `k == 0`
    /// there is one, the empty combination.
    pub fn new(n: usize, k: usize) -> (cursor: Self)
        ensures
            cursor.wf(),
            cursor.universe() == n,
            cursor.width() == k,
            cursor.position() == 0,
    {
        if k > n {
            proof {
                lemma_none_from(0, n as int, k as nat);
            }
            return Combinations { n, k, idx: Vec::new(), live: false, rank: Ghost(0) };
        }
        let mut idx: Vec<usize> = Vec::new();
        let mut j: usize = 0;
        while j < k
            invariant
                j <= k,
                idx.len() == j,
                forall|i: int| 0 <= i < j ==> idx[i] == i,
            decreases k - j,
        {
            idx.push(j);
            j += 1;
        }
        proof {
            lemma_first_from(0, n as int, k as nat);
            assert(positions(idx@) =~= run(0, k as nat));
        }
        Combinations { n, k, idx, live: true, rank: Ghost(0) }
    }

    /// The combination under the cursor, or `None` once the cursor is done.
    pub fn current(&self) -> (cur: Option<&Vec<usize>>)
        requires
            self.wf(),
        ensures
            cur is None <==> self.is_done(),
            cur matches Some(idx) ==> positions(idx@) == self.all()[self.position() as int]
                && idx.len() == self.width() && forall|j: int|
                0 <= j < idx.len() ==> idx[j] < self.universe(),
    {
        if self.live {
            proof {
                lemma_shape_from(0, self.n as int, self.k as nat, self.rank@ as int);
                assert forall|j: int| 0 <= j < self.idx.len() implies self.idx[j] < self.n by {
                    assert(positions(self.idx@)[j] == self.idx@[j] as int);
                }
            }
            Some(&self.idx)
        } else {
            None
        }
    }

    /// Moves the cursor to the next combination in lexicographic order, or
    /// past the end where it stood at the last one. A cursor that is done
    /// stays where it is.
    pub fn advance(&mut self)
        requires
            old(self).wf(),
        ensures
            final(self).wf(),
            final(self).universe() == old(self).universe(),
            final(self).width() == old(self).width(),
            final(self).position() == if old(self).is_done() {
                old(self).position()
            } else {
                old(self).position() + 1
            },
    {
        if !self.live {
            return ;
        }
        let n: usize = self.n;
        let k: usize = self.k;
        let ghost c = positions(self.idx@);
        let ghost r = self.rank@ as int;
        proof {
            lemma_shape_from(0, n as int, k as nat, r);
            if k > n {
                lemma_none_from(0, n as int, k as nat);
            }
        }
        let mut i: usize = k;
        while i > 0 && self.idx[i - 1] == n - k + (i - 1)
            invariant
                i <= k <= n,
                self.idx.len() == k,
                positions(self.idx@) == c,
                c.len() == k,
                packed_from(c, n as int, i as int),
            decreases i,
        {
            proof {
                assert(c[i - 1] == self.idx@[i - 1] as int);
            }
            i -= 1;
        }
        if i == 0 {
            proof {
                lemma_last_from(0, n as int, k as nat, r);
            }
            self.live = false;
            self.rank = Ghost((r + 1) as nat);
        } else {
            let at: usize = i - 1;
            let base: usize = self.idx[at];
            proof {
                assert(c[at as int] == base as int);
                lemma_next_from(0, n as int, k as nat, r, at as int);
            }
            let mut j: usize = at;
            while j < k
                invariant
                    at <= j <= k <= n,
                    self.idx.len() == k,
                    c.len() == k,
                    base == c[at as int],
                    base < n - k + at,
                    self.n == n,
                    self.k == k,
                    self.live,
                    self.rank@ == r,
                    forall|p: int|
                        0 <= p < j ==> self.idx@[p] as int == #[trigger] bumped(c, at as int)[p],
                    forall|p: int| j <= p < k ==> self.idx@[p] as int == #[trigger] c[p],
                decreases k - j,
            {
                self.idx[j] = base + 1 + (j - at);
                j += 1;
            }
            proof {
                assert(positions(self.idx@) =~= bumped(c, at as int));
            }
            self.rank = Ghost((r + 1) as nat);
        }
    }
}

/// The cards of `deck` at the positions `idx`, in the order of `idx`.
pub fn cards_of(deck: &[usize], idx: &[usize]) -> (cards: Vec<usize>)
    requires
        forall|j: int| 0 <= j < idx.len() ==> idx[j] < deck.len(),
    ensures
        cards@ == cards_at(deck@, positions(idx@)),
{
    let mut cards: Vec<usize> = Vec::new();
    let mut j: usize = 0;
    while j < idx.len()
        invariant
            j <= idx.len(),
            forall|j: int| 0 <= j < idx.len() ==> idx[j] < deck.len(),
            cards.len() == j,
            forall|i: int| 0 <= i < j ==> cards[i] == deck[idx[i] as int],
        decreases idx.len() - j,
    {
        cards.push(deck[idx[j]]);
        j += 1;
    }
    proof {
        assert(cards@ =~= cards_at(deck@, positions(idx@)));
    }
    cards
}

/// There are `binomial(n, k)` combinations of `k` positions out of `n`.
pub proof fn lemma_combinations_count(n: nat, k: nat)
    ensures
        combinations(n, k).len() == binomial(n, k),
{
    lemma_count_from(0, n as int, k);
}

/// Everything enumerated is a combination: `k` positions below `n`, in
/// ascending order.
pub proof fn lemma_combinations_are_combinations(n: nat, k: nat, r: int)
    requires
        0 <= r < combinations(n, k).len(),
    ensures
        is_combination(combinations(n, k)[r], n, k),
{
    lemma_shape_from(0, n as int, k, r);
}

/// The enumeration ascends in lexicographic order, so nothing is enumerated
/// twice.
pub proof fn lemma_combinations_ascend(n: nat, k: nat, r: int, s: int)
    requires
        0 <= r < s < combinations(n, k).len(),
    ensures
        lex_less(combinations(n, k)[r], combinations(n, k)[s]),
        combinations(n, k)[r] != combinations(n, k)[s],
{
    lemma_ascend_from(0, n as int, k, r, s);
}

/// Every combination is enumerated: nothing is left out.
pub proof fn lemma_combinations_complete(n: nat, k: nat, c: Seq<int>)
    requires
        is_combination(c, n, k),
    ensures
        exists|r: int| 0 <= r < combinations(n, k).len() && #[trigger] combinations(n, k)[r] == c,
{
    let r = lemma_complete_from(0, n as int, k, c);
    assert(combinations(n, k)[r] == c);
}

/// The sizes of the three enumerations in closed form: one slot gives `n`
/// runouts, two give `n (n - 1) / 2`, five give
/// `n (n - 1) (n - 2) (n - 3) (n - 4) / 120`.
pub proof fn lemma_enumeration_sizes(n: nat)
    ensures
        combinations(n, 1).len() == n,
        combinations(n, 2).len() == n * (n - 1) / 2,
        combinations(n, 5).len() == n * (n - 1) * (n - 2) * (n - 3) * (n - 4) / 120,
{
    lemma_combinations_count(n, 1);
    lemma_combinations_count(n, 2);
    lemma_combinations_count(n, 5);
    lemma_choose_one(n);
    lemma_choose_two(n);
    lemma_choose_five(n);
}

/// A deck of at most 52 cards has at most 2,598,960 runouts of one, two or
/// five cards.
pub proof fn lemma_runouts_are_few(deck: Seq<usize>, k: nat)
    requires
        deck.len() <= 52,
        k == 1 || k == 2 || k == 5,
    ensures
        runouts(deck, k).len() == binomial(deck.len(), k),
        runouts(deck, k).len() <= 2_598_960,
{
    lemma_combinations_count(deck.len(), k);
    lemma_binomial_grows(deck.len(), 52, k);
    lemma_choose_one(52);
    lemma_choose_two(52);
    lemma_choose_five(52);
}

/// The combinations out of `lo..n` are counted by the binomial.
proof fn lemma_count_from(lo: int, n: int, k: nat)
    requires
        0 <= lo <= n,
    ensures
        combos_from(lo, n, k).len() == binomial((n - lo) as nat, k),
    decreases k, n - lo,
{
    if k > 0 && lo < n {
        lemma_count_from(lo + 1, n, (k - 1) as nat);
        lemma_count_from(lo + 1, n, k);
    }
}

/// Fewer positions than places leave no combination.
proof fn lemma_none_from(lo: int, n: int, k: nat)
    requires
        lo <= n,
        n - lo < k,
    ensures
        combos_from(lo, n, k).len() == 0,
    decreases k, n - lo,
{
    if lo < n {
        lemma_none_from(lo + 1, n, (k - 1) as nat);
        lemma_none_from(lo + 1, n, k);
    }
}

/// The run `lo, lo + 1, ..` of length `k`.
spec fn run(lo: int, k: nat) -> Seq<int> {
    Seq::new(k, |j: int| lo + j)
}

/// Where there are enough positions, the first combination is the run that
/// starts at `lo`.
proof fn lemma_first_from(lo: int, n: int, k: nat)
    requires
        n - lo >= k,
    ensures
        combos_from(lo, n, k).len() > 0,
        combos_from(lo, n, k)[0] == run(lo, k),
    decreases k,
{
    if k == 0 {
        assert(combos_from(lo, n, k)[0] =~= run(lo, k));
    } else {
        lemma_first_from(lo + 1, n, (k - 1) as nat);
        let heads = combos_from(lo + 1, n, (k - 1) as nat);
        assert(seq![lo] + heads[0] =~= run(lo, k));
    }
}

/// Every combination out of `lo..n` ascends, and its place `j` holds a
/// position between `lo + j` and `n - k + j`.
proof fn lemma_shape_from(lo: int, n: int, k: nat, r: int)
    requires
        0 <= r < combos_from(lo, n, k).len(),
    ensures
        combos_from(lo, n, k)[r].len() == k,
        forall|j: int| 0 <= j < k ==> lo + j <= #[trigger] combos_from(lo, n, k)[r][j] <= n - k + j,
        forall|i: int, j: int|
            0 <= i < j < k ==> combos_from(lo, n, k)[r][i] < combos_from(lo, n, k)[r][j],
    decreases k, n - lo,
{
    if k > 0 {
        let heads = combos_from(lo + 1, n, (k - 1) as nat);
        let with_lo = heads.map_values(|c: Seq<int>| seq![lo] + c);
        let c = combos_from(lo, n, k)[r];
        if r < with_lo.len() {
            lemma_shape_from(lo + 1, n, (k - 1) as nat, r);
            let t = heads[r];
            assert(c == seq![lo] + t);
            if k == 1 {
                assert(lo < n);
            } else {
                assert(lo + 1 <= t[0] <= n - (k - 1));
            }
            assert forall|j: int| 0 <= j < k implies lo + j <= #[trigger] c[j] <= n - k + j by {
                if j > 0 {
                    assert(c[j] == t[j - 1]);
                }
            }
            assert forall|i: int, j: int| 0 <= i < j < k implies c[i] < c[j] by {
                assert(c[j] == t[j - 1]);
                if i > 0 {
                    assert(c[i] == t[i - 1]);
                }
            }
        } else {
            lemma_shape_from(lo + 1, n, k, r - with_lo.len());
        }
    }
}

/// `c` with the position at place `i` moved up by one and the places after
/// it filled with the positions that follow directly.
spec fn bumped(c: Seq<int>, i: int) -> Seq<int> {
    Seq::new(c.len(), |j: int| if j < i { c[j] } else { c[i] + 1 + (j - i) })
}

/// From place `i` on, `c` holds the highest positions below `n` that it can.
spec fn packed_from(c: Seq<int>, n: int, i: int) -> bool {
    forall|j: int| i <= j < c.len() ==> #[trigger] c[j] == n - c.len() + j
}

/// A combination that holds the highest positions throughout is the last.
proof fn lemma_last_from(lo: int, n: int, k: nat, r: int)
    requires
        0 <= r < combos_from(lo, n, k).len(),
        packed_from(combos_from(lo, n, k)[r], n, 0),
    ensures
        r + 1 == combos_from(lo, n, k).len(),
    decreases k, n - lo,
{
    if k > 0 {
        let heads = combos_from(lo + 1, n, (k - 1) as nat);
        let with_lo = heads.map_values(|c: Seq<int>| seq![lo] + c);
        let c = combos_from(lo, n, k)[r];
        lemma_shape_from(lo, n, k, r);
        if r < with_lo.len() {
            let t = heads[r];
            lemma_shape_from(lo + 1, n, (k - 1) as nat, r);
            assert(c == seq![lo] + t);
            assert forall|j: int| 0 <= j < t.len() implies #[trigger] t[j] == n - t.len() + j by {
                assert(t[j] == c[j + 1]);
            }
            lemma_last_from(lo + 1, n, (k - 1) as nat, r);
            assert(c[0] == lo);
            lemma_none_from(lo + 1, n, k);
        } else {
            lemma_last_from(lo + 1, n, k, r - with_lo.len());
        }
    }
}

/// Where place `i` of a combination can still move up and the places after it
/// cannot, the next combination moves place `i` up by one and packs the
/// places after it right behind.
proof fn lemma_next_from(lo: int, n: int, k: nat, r: int, i: int)
    requires
        0 <= r < combos_from(lo, n, k).len(),
        0 <= i < k,
        combos_from(lo, n, k)[r][i] < n - k + i,
        packed_from(combos_from(lo, n, k)[r], n, i + 1),
    ensures
        r + 1 < combos_from(lo, n, k).len(),
        combos_from(lo, n, k)[r + 1] == bumped(combos_from(lo, n, k)[r], i),
    decreases k, n - lo,
{
    let heads = combos_from(lo + 1, n, (k - 1) as nat);
    let with_lo = heads.map_values(|c: Seq<int>| seq![lo] + c);
    let rest = combos_from(lo + 1, n, k);
    let c = combos_from(lo, n, k)[r];
    lemma_shape_from(lo, n, k, r);
    if r < with_lo.len() {
        let t = heads[r];
        lemma_shape_from(lo + 1, n, (k - 1) as nat, r);
        assert(c == seq![lo] + t);
        assert forall|j: int| 0 <= j < t.len() implies #[trigger] t[j] == c[j + 1] by {}
        if i >= 1 {
            assert forall|j: int| i <= j < t.len() implies #[trigger] t[j] == n - t.len() + j by {
                assert(t[j] == c[j + 1]);
            }
            assert(t[i - 1] == c[i]);
            lemma_next_from(lo + 1, n, (k - 1) as nat, r, i - 1);
            assert(with_lo[r + 1] == seq![lo] + heads[r + 1]);
            assert(seq![lo] + bumped(t, i - 1) =~= bumped(c, i));
        } else {
            assert forall|j: int| 0 <= j < t.len() implies #[trigger] t[j] == n - t.len() + j by {
                assert(t[j] == c[j + 1]);
            }
            lemma_last_from(lo + 1, n, (k - 1) as nat, r);
            lemma_first_from(lo + 1, n, k);
            assert(c[0] == lo);
            assert(run(lo + 1, k) =~= bumped(c, 0));
            assert(combos_from(lo, n, k)[r + 1] == rest[0]);
        }
    } else {
        lemma_next_from(lo + 1, n, k, r - with_lo.len(), i);
    }
}

/// Later combinations are greater in lexicographic order.
proof fn lemma_ascend_from(lo: int, n: int, k: nat, r: int, s: int)
    requires
        0 <= r < s < combos_from(lo, n, k).len(),
    ensures
        lex_less(combos_from(lo, n, k)[r], combos_from(lo, n, k)[s]),
    decreases k, n - lo,
{
    if k > 0 {
        let heads = combos_from(lo + 1, n, (k - 1) as nat);
        let with_lo = heads.map_values(|c: Seq<int>| seq![lo] + c);
        let a = combos_from(lo, n, k)[r];
        let b = combos_from(lo, n, k)[s];
        lemma_shape_from(lo, n, k, r);
        lemma_shape_from(lo, n, k, s);
        if s < with_lo.len() {
            lemma_ascend_from(lo + 1, n, (k - 1) as nat, r, s);
            let ta = heads[r];
            let tb = heads[s];
            let i = choose|i: int|
                0 <= i < ta.len() && i < tb.len() && #[trigger] ta[i] < tb[i] && ta.take(i)
                    == tb.take(i);
            assert(a == seq![lo] + ta);
            assert(b == seq![lo] + tb);
            assert(a.take(i + 1) =~= seq![lo] + ta.take(i));
            assert(b.take(i + 1) =~= seq![lo] + tb.take(i));
            assert(a[i + 1] < b[i + 1]);
        } else if r < with_lo.len() {
            lemma_shape_from(lo + 1, n, k, s - with_lo.len());
            assert(a == seq![lo] + heads[r]);
            assert(a[0] < b[0]);
            assert(a.take(0) =~= b.take(0));
        } else {
            lemma_ascend_from(lo + 1, n, k, r - with_lo.len(), s - with_lo.len());
        }
    }
}

/// Every ascending choice of `k` positions out of `lo..n` has its place in
/// the enumeration.
proof fn lemma_complete_from(lo: int, n: int, k: nat, c: Seq<int>) -> (r: int)
    requires
        c.len() == k,
        forall|j: int| 0 <= j < c.len() ==> lo <= #[trigger] c[j] < n,
        forall|i: int, j: int| 0 <= i < j < c.len() ==> c[i] < c[j],
    ensures
        0 <= r < combos_from(lo, n, k).len(),
        combos_from(lo, n, k)[r] == c,
    decreases k, n - lo,
{
    if k == 0 {
        assert(combos_from(lo, n, k)[0] =~= c);
        0
    } else {
        let heads = combos_from(lo + 1, n, (k - 1) as nat);
        let with_lo = heads.map_values(|c: Seq<int>| seq![lo] + c);
        assert(lo <= c[0] < n);
        if c[0] == lo {
            let t = c.subrange(1, k as int);
            assert forall|j: int| 0 <= j < t.len() implies lo + 1 <= #[trigger] t[j] < n by {
                assert(t[j] == c[j + 1]);
                assert(c[0] < c[j + 1]);
            }
            let r = lemma_complete_from(lo + 1, n, (k - 1) as nat, t);
            assert(with_lo[r] == seq![lo] + heads[r]);
            assert(seq![lo] + t =~= c);
            r
        } else {
            assert forall|j: int| 0 <= j < c.len() implies lo + 1 <= #[trigger] c[j] < n by {
                if j > 0 {
                    assert(c[0] < c[j]);
                }
            }
            let r = lemma_complete_from(lo + 1, n, k, c);
            with_lo.len() + r
        }
    }
}

/// The binomials of one to five places, cleared of their denominators.
proof fn lemma_choose_one(n: nat)
    ensures
        binomial(n, 1) == n,
    decreases n,
{
    if n > 0 {
        lemma_choose_one((n - 1) as nat);
        assert(binomial((n - 1) as nat, 0) == 1);
    }
}

proof fn lemma_choose_two(n: nat)
    ensures
        2 * binomial(n, 2) == n * (n - 1),
    decreases n,
{
    if n > 0 {
        let m = (n - 1) as nat;
        lemma_choose_one(m);
        lemma_choose_two(m);
        assert(n * (n - 1) == 2 * m + m * (m - 1)) by (nonlinear_arith)
            requires
                n == m + 1,
        ;
    } else {
        assert(n * (n - 1) == 0) by (nonlinear_arith)
            requires
                n == 0,
        ;
    }
}

proof fn lemma_choose_three(n: nat)
    ensures
        6 * binomial(n, 3) == n * (n - 1) * (n - 2),
    decreases n,
{
    if n > 0 {
        let m = (n - 1) as nat;
        lemma_choose_two(m);
        lemma_choose_three(m);
        assert(n * (n - 1) * (n - 2) == 3 * (m * (m - 1)) + m * (m - 1) * (m - 2))
            by (nonlinear_arith)
            requires
                n == m + 1,
        ;
    } else {
        assert(n * (n - 1) * (n - 2) == 0) by (nonlinear_arith)
            requires
                n == 0,
        ;
    }
}

proof fn lemma_choose_four(n: nat)
    ensures
        24 * binomial(n, 4) == n * (n - 1) * (n - 2) * (n - 3),
    decreases n,
{
    if n > 0 {
        let m = (n - 1) as nat;
        lemma_choose_three(m);
        lemma_choose_four(m);
        assert(n * (n - 1) * (n - 2) * (n - 3) == 4 * (m * (m - 1) * (m - 2)) + m * (m - 1) * (m
            - 2) * (m - 3)) by (nonlinear_arith)
            requires
                n == m + 1,
        ;
    } else {
        assert(n * (n - 1) * (n - 2) * (n - 3) == 0) by (nonlinear_arith)
            requires
                n == 0,
        ;
    }
}

proof fn lemma_choose_five(n: nat)
    ensures
        120 * binomial(n, 5) == n * (n - 1) * (n - 2) * (n - 3) * (n - 4),
    decreases n,
{
    if n > 0 {
        let m = (n - 1) as nat;
        lemma_choose_four(m);
        lemma_choose_five(m);
        assert(n * (n - 1) * (n - 2) * (n - 3) * (n - 4) == 5 * (m * (m - 1) * (m - 2) * (m - 3))
            + m * (m - 1) * (m - 2) * (m - 3) * (m - 4)) by (nonlinear_arith)
            requires
                n == m + 1,
        ;
    } else {
        assert(n * (n - 1) * (n - 2) * (n - 3) * (n - 4) == 0) by (nonlinear_arith)
            requires
                n == 0,
        ;
    }
}

/// More positions never give fewer combinations.
proof fn lemma_binomial_grows(n: nat, m: nat, k: nat)
    requires
        n <= m,
    ensures
        binomial(n, k) <= binomial(m, k),
    decreases m,
{
    if n < m {
        lemma_binomial_grows(n, (m - 1) as nat, k);
    }
}

} // verus!
