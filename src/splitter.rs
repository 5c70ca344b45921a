//! Splitting a word into the set of its lower-case character n-grams.
use vstd::prelude::*;
use vstd::string::StrSliceExecFns;

verus! {

/// The characters of `s` in lower case, as `str::to_lowercase` produces them.
pub uninterp spec fn lower_of(s: Seq<char>) -> Seq<char>;

/// Relies on `str::to_lowercase`: its result depends on the characters of `s` alone.
#[verifier::external_body]
fn lowercase(s: &str) -> (r: String)
    ensures
        r@ == lower_of(s@),
{
    s.to_lowercase()
}

/// The character sequences held by a list of strings.
pub open spec fn views(v: Seq<String>) -> Seq<Seq<char>> {
    v.map_values(|s: String| s@)
}

/// The set of character sequences held by a list of strings.
pub open spec fn view_set(v: Seq<String>) -> Set<Seq<char>> {
    views(v).to_set()
}

/// A list of strings that holds each character sequence at most once.
pub open spec fn distinct(v: Seq<String>) -> bool {
    views(v).no_duplicates()
}

/// The first `count` windows of `size` consecutive characters of `w`, from the left.
pub open spec fn windows_upto(w: Seq<char>, size: nat, count: nat) -> Seq<Seq<char>> {
    Seq::new(count, |x: int| w.subrange(x, x + size))
}

/// All runs of `size` consecutive characters of `w`. A size of zero, or one
/// larger than `w`, gives none.
pub open spec fn windows(w: Seq<char>, size: nat) -> Set<Seq<char>> {
    if 0 < size && size <= w.len() {
        windows_upto(w, size, (w.len() - size + 1) as nat).to_set()
    } else {
        Set::empty()
    }
}

/// The n-grams of `w` for the sizes in `sizes`: the union of the windows of
/// each size.
pub open spec fn grams(w: Seq<char>, sizes: Seq<usize>) -> Set<Seq<char>>
    decreases sizes.len(),
{
    if sizes.len() == 0 {
        Set::empty()
    } else {
        grams(w, sizes.drop_last()).union(windows(w, sizes.last() as nat))
    }
}

/// The n-gram set of a word: the n-grams of its lower-case form.
pub open spec fn word_grams(word: Seq<char>, sizes: Seq<usize>) -> Set<Seq<char>> {
    grams(lower_of(word), sizes)
}

/// The n-grams of any word are finitely many.
pub proof fn lemma_grams_finite(w: Seq<char>, sizes: Seq<usize>)
    ensures
        grams(w, sizes).finite(),
    decreases sizes.len(),
{
    broadcast use vstd::seq_lib::seq_to_set_is_finite;

    if sizes.len() > 0 {
        lemma_grams_finite(w, sizes.drop_last());
    }
}

/// Whether `v` holds the character sequence of `g`.
pub fn contains_gram(v: &Vec<String>, g: &String) -> (r: bool)
    ensures
        r == views(v@).contains(g@),
{
    let mut i: usize = 0;
    while i < v.len()
        invariant
            i <= v.len(),
            forall|j: int| 0 <= j < i ==> v@[j]@ != g@,
        decreases v.len() - i,
    {
        if v[i] == *g {
            assert(views(v@)[i as int] == g@);
            return true;
        }
        i += 1;
    }
    assert(!views(v@).contains(g@)) by {
        if views(v@).contains(g@) {
            let j = choose|j: int| 0 <= j < views(v@).len() && views(v@)[j] == g@;
            assert(v@[j]@ == g@);
        }
    }
    false
}

/// Appends `g` to `v` unless `v` already holds its character sequence.
fn insert_gram(v: &mut Vec<String>, g: String)
    requires
        distinct(old(v)@),
    ensures
        distinct(final(v)@),
        view_set(final(v)@) == view_set(old(v)@).insert(g@),
{
    broadcast use vstd::seq_lib::group_seq_properties;

    if !contains_gram(v, &g) {
        let ghost before = v@;
        v.push(g);
        assert(views(v@) =~= views(before).push(g@));
    } else {
        assert(view_set(v@).contains(g@));
        assert(view_set(v@) =~= view_set(v@).insert(g@));
    }
}

/// Splits `word` into its n-grams: every run of `s` consecutive characters of
/// its lower-case form, for each size `s` of `sizes` with `0 < s <= length`,
/// each distinct n-gram once. Sizes of zero, or larger than the word, add
/// nothing.
pub fn split_word(word: &str, sizes: &Vec<usize>) -> (r: Vec<String>)
    ensures
        distinct(r@),
        view_set(r@) == word_grams(word@, sizes@),
{
    broadcast use vstd::seq_lib::group_seq_properties;

    let lower = lowercase(word);
    let lw: &str = lower.as_str();
    let n = lw.unicode_len();
    let mut subs: Vec<String> = Vec::new();
    let mut k: usize = 0;
    assert(views(subs@) =~= Seq::empty());
    assert(sizes@.subrange(0, 0) =~= Seq::<usize>::empty());
    while k < sizes.len()
        invariant
            k <= sizes.len(),
            n == lw@.len(),
            lw@ == lower_of(word@),
            distinct(subs@),
            view_set(subs@) == grams(lw@, sizes@.subrange(0, k as int)),
        decreases sizes.len() - k,
    {
        let size = sizes[k];
        let ghost done = grams(lw@, sizes@.subrange(0, k as int));
        assert(sizes@.subrange(0, k + 1).drop_last() =~= sizes@.subrange(0, k as int));
        if 0 < size && size <= n {
            let mut x: usize = 0;
            assert(windows_upto(lw@, size as nat, 0).to_set() =~= Set::empty());
            assert(done.union(Set::empty()) =~= done);
            while x <= n - size
                invariant
                    0 < size <= n,
                    x <= n - size + 1,
                    n == lw@.len(),
                    distinct(subs@),
                    view_set(subs@) == done.union(windows_upto(lw@, size as nat, x as nat).to_set()),
                decreases n - size + 1 - x,
            {
                let sub = lw.substring_char(x, x + size).to_owned();
                insert_gram(&mut subs, sub);
                assert(windows_upto(lw@, size as nat, (x + 1) as nat) =~= windows_upto(
                    lw@,
                    size as nat,
                    x as nat,
                ).push(lw@.subrange(x as int, x + size)));
                proof {
                    windows_upto(lw@, size as nat, x as nat).lemma_push_to_set_commute(
                        lw@.subrange(x as int, x + size),
                    );
                }
                assert(done.union(windows_upto(lw@, size as nat, (x + 1) as nat).to_set())
                    =~= done.union(windows_upto(lw@, size as nat, x as nat).to_set()).insert(
                    lw@.subrange(x as int, x + size),
                ));
                x += 1;
            }
        } else {
            assert(done.union(Set::empty()) =~= done);
        }
        k += 1;
    }
    assert(sizes@.subrange(0, sizes.len() as int) =~= sizes@);
    subs
}

} // verus!
