//! The similarity score of two n-gram sets, held as an exact fraction.
use vstd::prelude::*;
use vstd::arithmetic::div_mod::lemma_fundamental_div_mod;
use crate::splitter::{distinct, view_set, views};

verus! {

/// The base in which a product is split into two parts.
pub const WORD: u128 = 0x1_0000_0000_0000_0000;

/// The number of n-grams that two sets share.
pub open spec fn overlap_of(a: Set<Seq<char>>, b: Set<Seq<char>>) -> nat {
    a.intersect(b).len()
}

/// The denominator of the score of two sets: their sizes added, or one where
/// both are empty, so that the score is then zero.
pub open spec fn total_of(a: Set<Seq<char>>, b: Set<Seq<char>>) -> nat {
    if a.len() + b.len() == 0 {
        1
    } else {
        a.len() + b.len()
    }
}

/// Whether the fraction `o1 / t1` is at least `o2 / t2` (denominators positive).
pub open spec fn ratio_at_least(o1: int, t1: int, o2: int, t2: int) -> bool {
    o1 * t2 >= o2 * t1
}

/// A similarity score: the fraction `overlap / total`.
#[derive(Clone, Copy, Debug)]
pub struct Score {
    overlap: usize,
    total: u128,
}

/// A score paired with the position of the candidate that earned it.
#[derive(Clone, Copy, Debug)]
pub struct ScoreValue {
    pub index: usize,
    pub score: Score,
}

impl Score {
    /// The numerator of the fraction.
    pub closed spec fn spec_overlap(self) -> int {
        self.overlap as int
    }

    /// The denominator of the fraction.
    pub closed spec fn spec_total(self) -> int {
        self.total as int
    }

    /// A positive denominator no larger than two sets held in memory give.
    pub open spec fn wf(self) -> bool {
        0 < self.spec_total() < 2 * WORD
    }

    /// Whether this score is at least `other`.
    pub open spec fn at_least(self, other: Score) -> bool {
        ratio_at_least(self.spec_overlap(), self.spec_total(), other.spec_overlap(), other.spec_total())
    }

    /// The number of shared n-grams.
    pub fn overlap(&self) -> (r: usize)
        ensures
            r == self.spec_overlap(),
    {
        self.overlap
    }

    /// The sizes of the two sets added, or one where both are empty.
    pub fn total(&self) -> (r: u128)
        ensures
            r == self.spec_total(),
    {
        self.total
    }

    /// Whether this score is at least `other`, compared exactly.
    pub fn ge(&self, other: &Score) -> (r: bool)
        requires
            self.wf(),
            other.wf(),
        ensures
            r == self.at_least(*other),
    {
        let (h1, l1) = wide_mul(self.overlap as u128, other.total);
        let (h2, l2) = wide_mul(other.overlap as u128, self.total);
        proof {
            lemma_lex_order(h1 as int, l1 as int, h2 as int, l2 as int);
        }
        h1 > h2 || (h1 == h2 && l1 >= l2)
    }
}

/// Comparing two numbers written in base `WORD` is comparing their high
/// parts, then their low parts.
proof fn lemma_lex_order(h1: int, l1: int, h2: int, l2: int)
    requires
        0 <= l1 < WORD,
        0 <= l2 < WORD,
    ensures
        (h1 * WORD + l1 >= h2 * WORD + l2) == (h1 > h2 || (h1 == h2 && l1 >= l2)),
{
    if h1 > h2 {
        assert(h1 * WORD >= h2 * WORD + WORD) by (nonlinear_arith)
            requires
                h1 > h2,
        ;
    } else if h1 < h2 {
        assert(h2 * WORD >= h1 * WORD + WORD) by (nonlinear_arith)
            requires
                h1 < h2,
        ;
    }
}

/// The product `o * t` as a high and a low part in base `WORD`.
fn wide_mul(o: u128, t: u128) -> (r: (u128, u128))
    requires
        o < WORD,
        t < 2 * WORD,
    ensures
        r.1 < WORD,
        r.0 * WORD + r.1 == o * t,
{
    let th = t / WORD;
    let tl = t % WORD;
    proof {
        lemma_fundamental_div_mod(t as int, WORD as int);
    }
    assert(o * tl < WORD * WORD) by (nonlinear_arith)
        requires
            o < WORD,
            tl < WORD,
    ;
    let p = o * tl;
    let ph = p / WORD;
    let pl = p % WORD;
    proof {
        lemma_fundamental_div_mod(p as int, WORD as int);
    }
    assert(th <= 1);
    assert(o * th <= o) by (nonlinear_arith)
        requires
            th <= 1,
    ;
    let hi = o * th + ph;
    assert(hi * WORD + pl == o * t) by (nonlinear_arith)
        requires
            t == WORD * th + tl,
            p == o * tl,
            p == WORD * ph + pl,
            hi == o * th + ph,
    ;
    (hi, pl)
}

/// Scores a query's n-gram set against a candidate's: the n-grams they
/// share, over the sizes of the two sets added; zero where both are empty.
pub fn evaluate(word_subs: &Vec<String>, possible_subs: &Vec<String>) -> (r: Score)
    requires
        distinct(word_subs@),
        distinct(possible_subs@),
    ensures
        r.wf(),
        r.spec_overlap() == overlap_of(view_set(word_subs@), view_set(possible_subs@)),
        r.spec_total() == total_of(view_set(word_subs@), view_set(possible_subs@)),
{
    broadcast use vstd::set::group_set_axioms, vstd::seq_lib::group_seq_properties;

    let ghost q = views(word_subs@);
    let ghost c = view_set(possible_subs@);
    let mut count: usize = 0;
    let mut i: usize = 0;
    assert(q.subrange(0, 0).to_set() =~= Set::empty());
    assert(Set::<Seq<char>>::empty().intersect(c) =~= Set::empty());
    while i < word_subs.len()
        invariant
            i <= word_subs.len(),
            q == views(word_subs@),
            c == view_set(possible_subs@),
            q.no_duplicates(),
            count <= i,
            count == q.subrange(0, i as int).to_set().intersect(c).len(),
        decreases word_subs.len() - i,
    {
        let ghost before = q.subrange(0, i as int).to_set();
        let ghost g = q[i as int];
        assert(q.subrange(0, i + 1) =~= q.subrange(0, i as int).push(g));
        proof {
            q.subrange(0, i as int).lemma_push_to_set_commute(g);
        }
        assert(!before.contains(g)) by {
            if before.contains(g) {
                let j = choose|j: int| 0 <= j < i && q.subrange(0, i as int)[j] == g;
                assert(q[j] == q[i as int]);
            }
        }
        assert(before.intersect(c).finite());
        assert(g == word_subs@[i as int]@);
        if contains_in(possible_subs, &word_subs[i]) {
            assert(before.insert(g).intersect(c) =~= before.intersect(c).insert(g));
            count += 1;
        } else {
            assert(before.insert(g).intersect(c) =~= before.intersect(c));
        }
        i += 1;
    }
    assert(q.subrange(0, word_subs.len() as int) =~= q);
    proof {
        q.unique_seq_to_set();
        views(possible_subs@).unique_seq_to_set();
    }
    let sum: u128 = word_subs.len() as u128 + possible_subs.len() as u128;
    let total: u128 = if sum == 0 {
        1
    } else {
        sum
    };
    Score { overlap: count, total }
}

/// Whether `v` holds the character sequence of `g`, as a member of its set.
fn contains_in(v: &Vec<String>, g: &String) -> (r: bool)
    ensures
        r == view_set(v@).contains(g@),
{
    broadcast use vstd::seq_lib::group_seq_properties;

    crate::splitter::contains_gram(v, g)
}

/// Of two scored candidates, the one with the higher score; the first on a tie.
pub fn max_score(a: ScoreValue, b: ScoreValue) -> (r: ScoreValue)
    requires
        a.score.wf(),
        b.score.wf(),
    ensures
        r == (if a.score.at_least(b.score) {
            a
        } else {
            b
        }),
{
    if a.score.ge(&b.score) {
        a
    } else {
        b
    }
}

/// The order of scores with positive denominators is total.
pub proof fn lemma_at_least_total(a: Score, b: Score)
    requires
        a.wf(),
        b.wf(),
    ensures
        a.at_least(b) || b.at_least(a),
{
}

/// The order of scores with positive denominators is transitive.
pub proof fn lemma_at_least_transitive(a: Score, b: Score, c: Score)
    requires
        a.wf(),
        b.wf(),
        c.wf(),
        a.at_least(b),
        b.at_least(c),
    ensures
        a.at_least(c),
{
    let (ao, at, bo, bt, co, ct) = (
        a.spec_overlap(),
        a.spec_total(),
        b.spec_overlap(),
        b.spec_total(),
        c.spec_overlap(),
        c.spec_total(),
    );
    assert(ao * ct >= co * at) by (nonlinear_arith)
        requires
            ao * bt >= bo * at,
            bo * ct >= co * bt,
            at > 0,
            bt > 0,
            ct > 0,
            ao >= 0,
            bo >= 0,
            co >= 0,
    ;
}

/// A set scored against itself, when not empty, scores exactly one half, and
/// no two sets score more than one half.
pub proof fn lemma_score_self(a: Set<Seq<char>>, b: Set<Seq<char>>)
    requires
        a.finite(),
        b.finite(),
    ensures
        a.len() > 0 ==> 2 * overlap_of(a, a) == total_of(a, a),
        2 * overlap_of(a, b) <= total_of(a, b),
{
    assert(a.intersect(a) =~= a);
    vstd::set_lib::lemma_len_intersect(a, b);
    vstd::set_lib::lemma_len_intersect(b, a);
    assert(b.intersect(a) =~= a.intersect(b));
}

/// Two empty sets score zero, over a denominator of one.
pub proof fn lemma_score_empty()
    ensures
        overlap_of(Set::empty(), Set::empty()) == 0,
        total_of(Set::empty(), Set::empty()) == 1,
{
    assert(Set::<Seq<char>>::empty().intersect(Set::empty()) =~= Set::empty());
}

/// A query's set scored against itself is at least its score against any
/// other set.
pub proof fn lemma_identical_attains_max(a: Set<Seq<char>>, b: Set<Seq<char>>)
    requires
        a.finite(),
        b.finite(),
    ensures
        ratio_at_least(
            overlap_of(a, a) as int,
            total_of(a, a) as int,
            overlap_of(a, b) as int,
            total_of(a, b) as int,
        ),
{
    lemma_score_self(a, b);
    if a.len() == 0 {
        assert(a.intersect(b) =~= Set::empty());
    } else {
        let (o1, t1, o2, t2) = (
            overlap_of(a, a) as int,
            total_of(a, a) as int,
            overlap_of(a, b) as int,
            total_of(a, b) as int,
        );
        assert(o1 * t2 >= o2 * t1) by (nonlinear_arith)
            requires
                2 * o1 == t1,
                2 * o2 <= t2,
                o1 > 0,
                o2 >= 0,
        ;
    }
}

} // verus!
