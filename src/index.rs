//! The dictionary index and the search for the closest word.
use vstd::prelude::*;
use crate::par::par_map;
use crate::scorer::{evaluate, max_score, overlap_of, ratio_at_least, total_of, Score, ScoreValue};
use crate::scorer::{lemma_at_least_total, lemma_at_least_transitive, lemma_identical_attains_max};
use crate::splitter::{distinct, lemma_grams_finite, lower_of, split_word, view_set, views, word_grams};

verus! {

/// The words of `s` with every repeat after the first left out, in order.
pub open spec fn dedup(s: Seq<Seq<char>>) -> Seq<Seq<char>>
    decreases s.len(),
{
    if s.len() == 0 {
        Seq::empty()
    } else {
        let d = dedup(s.drop_last());
        if d.contains(s.last()) {
            d
        } else {
            d.push(s.last())
        }
    }
}

/// Whether, scored against the query set `q`, the set `a` scores at least as
/// high as the set `b`.
pub open spec fn scores_at_least(q: Set<Seq<char>>, a: Set<Seq<char>>, b: Set<Seq<char>>) -> bool {
    ratio_at_least(overlap_of(q, a) as int, total_of(q, a) as int, overlap_of(q, b) as int, total_of(q, b) as int)
}

/// Whether the word at position `i` of `words` is the closest match to
/// `query`: it scores at least as high as every word, and strictly higher
/// than every word before it.
pub open spec fn is_first_best(words: Seq<Seq<char>>, sizes: Seq<usize>, query: Seq<char>, i: int) -> bool {
    let q = word_grams(query, sizes);
    &&& 0 <= i < words.len()
    &&& forall|j: int| 0 <= j < words.len() ==> scores_at_least(q, word_grams(words[i], sizes), #[trigger] word_grams(words[j], sizes))
    &&& forall|j: int| 0 <= j < i ==> !scores_at_least(q, #[trigger] word_grams(words[j], sizes), word_grams(words[i], sizes))
}

/// A dictionary word with its n-gram set.
#[derive(Debug)]
pub struct SplitWord {
    word: String,
    substrings: Vec<String>,
}

/// The index of a dictionary: each distinct word, in order of first
/// occurrence, with its n-gram set, and the n-gram sizes it was built with.
#[derive(Debug)]
pub struct ClosestMatch {
    substrings: Vec<SplitWord>,
    substring_sizes: Vec<usize>,
}

/// The words held by a list of entries.
pub open spec fn entry_words(v: Seq<SplitWord>) -> Seq<Seq<char>> {
    v.map_values(|e: SplitWord| e.view_word())
}

impl SplitWord {
    /// The word, as it was given.
    pub closed spec fn view_word(self) -> Seq<char> {
        self.word@
    }

    /// The word's n-gram set.
    pub closed spec fn view_grams(self) -> Set<Seq<char>> {
        view_set(self.substrings@)
    }

    /// The n-gram list holds each n-gram once, and they are those of the word
    /// for `sizes`.
    pub closed spec fn wf(self, sizes: Seq<usize>) -> bool {
        &&& distinct(self.substrings@)
        &&& view_set(self.substrings@) == word_grams(self.word@, sizes)
    }
}

impl ClosestMatch {
    /// The dictionary words held, in order of first occurrence.
    pub closed spec fn words(&self) -> Seq<Seq<char>> {
        entry_words(self.substrings@)
    }

    /// The n-gram sizes the index was built with.
    pub closed spec fn sizes(&self) -> Seq<usize> {
        self.substring_sizes@
    }

    /// Every entry holds the n-gram set of its word.
    pub closed spec fn wf(&self) -> bool {
        forall|i: int| 0 <= i < self.substrings@.len() ==> (#[trigger] self.substrings@[i]).wf(self.substring_sizes@)
    }

    /// Finds the dictionary word closest to `word`: the one whose n-gram set
    /// scores highest against that of `word`, the first in the index on a
    /// tie. Returns the word as it was given to the index, or `None` when the
    /// index is empty.
    pub fn get_closest(&self, word: String) -> (r: Option<String>)
        requires
            self.wf(),
        ensures
            r is None <==> self.words().len() == 0,
            r is Some ==> exists|i: int| is_first_best(self.words(), self.sizes(), word@, i) && r->0@ == self.words()[i],
    {
        let word_subs = split_word(word.as_str(), &self.substring_sizes);
        let ghost q = view_set(word_subs@);
        let score_entry = |e: &SplitWord| -> (s: Score)
            requires
                distinct(e.substrings@),
            ensures
                s.wf(),
                s.spec_overlap() == overlap_of(view_set(word_subs@), view_set(e.substrings@)),
                s.spec_total() == total_of(view_set(word_subs@), view_set(e.substrings@)),
            {
                evaluate(&word_subs, &e.substrings)
            };
        let scores: Vec<Score> = par_map(&self.substrings, score_entry);
        let ghost g = |j: int| word_grams(self.words()[j], self.sizes());
        assert forall|j: int| 0 <= j < scores.len() implies {
            &&& (#[trigger] scores[j]).wf()
            &&& scores[j].spec_overlap() == overlap_of(q, g(j))
            &&& scores[j].spec_total() == total_of(q, g(j))
        } by {
            assert(self.substrings@[j].wf(self.substring_sizes@));
            assert(self.words()[j] == self.substrings@[j].word@);
        }
        if scores.len() == 0 {
            return None;
        }
        let mut best = ScoreValue { index: 0, score: scores[0] };
        let mut i: usize = 1;
        while i < scores.len()
            invariant
                1 <= i <= scores.len(),
                best.index < i,
                best.score == scores[best.index as int],
                forall|j: int| 0 <= j < scores.len() ==> (#[trigger] scores[j]).wf(),
                forall|j: int| 0 <= j < i ==> best.score.at_least(#[trigger] scores[j]),
                forall|j: int| 0 <= j < best.index ==> !(#[trigger] scores[j]).at_least(best.score),
            decreases scores.len() - i,
        {
            let next = ScoreValue { index: i, score: scores[i] };
            let ghost prev = best;
            best = max_score(best, next);
            proof {
                if !prev.score.at_least(next.score) {
                    lemma_at_least_total(prev.score, next.score);
                    assert forall|j: int| 0 <= j <= i implies best.score.at_least(#[trigger] scores[j]) by {
                        if j < i {
                            lemma_at_least_transitive(next.score, prev.score, scores[j]);
                        }
                    }
                    assert forall|j: int| 0 <= j < i implies !(#[trigger] scores[j]).at_least(best.score) by {
                        if scores[j].at_least(next.score) {
                            lemma_at_least_transitive(prev.score, scores[j], next.score);
                        }
                    }
                }
            }
            i += 1;
        }
        let k = best.index;
        assert(is_first_best(self.words(), self.sizes(), word@, k as int)) by {
            assert forall|j: int| 0 <= j < self.words().len() implies scores_at_least(q, g(k as int), #[trigger] word_grams(self.words()[j], self.sizes())) by {
                assert(best.score.at_least(scores[j]));
            }
            assert forall|j: int| 0 <= j < k implies !scores_at_least(q, #[trigger] word_grams(self.words()[j], self.sizes()), g(k as int)) by {
                assert(!scores[j].at_least(best.score));
            }
        }
        Some(self.substrings[k].word.clone())
    }
}

/// Whether `entries` already holds the word `w`.
fn has_word(entries: &Vec<SplitWord>, w: &String) -> (r: bool)
    ensures
        r == entry_words(entries@).contains(w@),
{
    let mut i: usize = 0;
    while i < entries.len()
        invariant
            i <= entries.len(),
            forall|j: int| 0 <= j < i ==> entries@[j].view_word() != w@,
        decreases entries.len() - i,
    {
        if entries[i].word == *w {
            assert(entry_words(entries@)[i as int] == w@);
            return true;
        }
        i += 1;
    }
    assert(!entry_words(entries@).contains(w@)) by {
        if entry_words(entries@).contains(w@) {
            let j = choose|j: int| 0 <= j < entries.len() && entry_words(entries@)[j] == w@;
            assert(entries@[j].view_word() == w@);
        }
    }
    false
}

/// Builds the index of `dictionary` for the n-gram sizes `sizes`: each
/// distinct word, in order of its first occurrence, with its n-gram set.
/// A word given twice is kept once, where it first occurs.
pub fn new(dictionary: Vec<String>, sizes: Vec<usize>) -> (r: ClosestMatch)
    ensures
        r.wf(),
        r.words() == dedup(views(dictionary@)),
        r.sizes() == sizes@,
{
    let split_entry = |w: &String| -> (g: Vec<String>)
        ensures
            distinct(g@),
            view_set(g@) == word_grams(w@, sizes@),
        {
            split_word(w.as_str(), &sizes)
        };
    let splits: Vec<Vec<String>> = par_map(&dictionary, split_entry);
    let mut entries: Vec<SplitWord> = Vec::new();
    let mut i: usize = 0;
    assert(views(dictionary@).subrange(0, 0) =~= Seq::<Seq<char>>::empty());
    assert(entry_words(entries@) =~= Seq::<Seq<char>>::empty());
    while i < dictionary.len()
        invariant
            i <= dictionary.len(),
            splits.len() == dictionary.len(),
            forall|j: int| 0 <= j < dictionary.len() ==> distinct((#[trigger] splits[j])@) && view_set(splits[j]@) == word_grams(dictionary[j]@, sizes@),
            forall|j: int| 0 <= j < entries.len() ==> (#[trigger] entries@[j]).wf(sizes@),
            entry_words(entries@) == dedup(views(dictionary@).subrange(0, i as int)),
        decreases dictionary.len() - i,
    {
        let ghost before = entries@;
        assert(views(dictionary@).subrange(0, i + 1).drop_last() =~= views(dictionary@).subrange(0, i as int));
        assert(views(dictionary@)[i as int] == dictionary[i as int]@);
        if !has_word(&entries, &dictionary[i]) {
            let e = SplitWord { word: dictionary[i].clone(), substrings: splits[i].clone() };
            assert(e.substrings@ =~= splits[i as int]@);
            entries.push(e);
            assert(entry_words(entries@) =~= entry_words(before).push(dictionary[i as int]@));
        }
        i += 1;
    }
    assert(views(dictionary@).subrange(0, dictionary.len() as int) =~= views(dictionary@));
    ClosestMatch { substrings: entries, substring_sizes: sizes }
}

/// The index of a dictionary holds no word exactly when the dictionary is
/// empty, so a search in the index of an empty dictionary finds nothing.
pub proof fn lemma_empty_dictionary(dictionary: Seq<Seq<char>>)
    ensures
        (dedup(dictionary).len() == 0) == (dictionary.len() == 0),
{
    if dictionary.len() > 0 {
        lemma_dedup_keeps(dictionary, dictionary.len() - 1);
    }
}

/// Every word of `s` stands in `dedup(s)`.
proof fn lemma_dedup_keeps(s: Seq<Seq<char>>, i: int)
    requires
        0 <= i < s.len(),
    ensures
        dedup(s).contains(s[i]),
    decreases s.len(),
{
    let d = dedup(s.drop_last());
    if i < s.len() - 1 {
        lemma_dedup_keeps(s.drop_last(), i);
        if !d.contains(s.last()) {
            let k = choose|k: int| 0 <= k < d.len() && d[k] == s[i];
            assert(d.push(s.last())[k] == s[i]);
        }
    } else if !d.contains(s.last()) {
        assert(d.push(s.last())[d.len() as int] == s[i]);
    }
}

/// The closest match is unique: one query against one index never has two
/// different answers.
pub proof fn lemma_first_best_unique(words: Seq<Seq<char>>, sizes: Seq<usize>, query: Seq<char>, i: int, j: int)
    requires
        is_first_best(words, sizes, query, i),
        is_first_best(words, sizes, query, j),
    ensures
        i == j,
{
    if i < j {
        assert(scores_at_least(word_grams(query, sizes), word_grams(words[i], sizes), word_grams(words[j], sizes)));
    } else if j < i {
        assert(scores_at_least(word_grams(query, sizes), word_grams(words[j], sizes), word_grams(words[i], sizes)));
    }
}

/// A word that equals the query but for case scores at least as high as any
/// other word; the closest match is then that word, or one before it that
/// scores exactly as high.
pub proof fn lemma_exact_match_attains_max(words: Seq<Seq<char>>, sizes: Seq<usize>, query: Seq<char>, i: int, k: int)
    requires
        0 <= i < words.len(),
        lower_of(words[i]) == lower_of(query),
        is_first_best(words, sizes, query, k),
    ensures
        forall|j: int| 0 <= j < words.len() ==> scores_at_least(word_grams(query, sizes), word_grams(words[i], sizes), #[trigger] word_grams(words[j], sizes)),
        k <= i,
        k == i || scores_at_least(word_grams(query, sizes), word_grams(words[i], sizes), word_grams(words[k], sizes)),
{
    let q = word_grams(query, sizes);
    assert forall|j: int| 0 <= j < words.len() implies scores_at_least(q, word_grams(words[i], sizes), #[trigger] word_grams(words[j], sizes)) by {
        lemma_grams_finite(lower_of(query), sizes);
        lemma_grams_finite(lower_of(words[j]), sizes);
        lemma_identical_attains_max(q, word_grams(words[j], sizes));
    }
    if k > i {
        assert(!scores_at_least(q, word_grams(words[i], sizes), word_grams(words[k], sizes)));
    }
}

} // verus!
