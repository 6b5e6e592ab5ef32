//! Scoring words and ranking them by descending score.
//!
//! Every ranking here is a stable sort: words with a higher score come first, and words with
//! equal scores keep the order they had in the input. A ranking is described by an index
//! permutation (`is_stable_ranking`), and the output is the input read through that
//! permutation (`is_ranked`). Those two properties fix the output uniquely.
use vstd::prelude::*;
use vstd::string::StrSliceExecFns;

verus! {

/// Number of occurrences of `c` in `s`.
pub open spec fn count_char(s: Seq<char>, c: char) -> nat
    decreases s.len(),
{
    if s.len() == 0 {
        0
    } else {
        count_char(s.drop_last(), c) + if s.last() == c {
            1nat
        } else {
            0nat
        }
    }
}

/// Base score: the number of characters that are not `'a'`.
pub open spec fn score_spec(w: Seq<char>) -> int {
    w.len() - count_char(w, 'a')
}

/// Five points for a word that contains `'c'`.
pub open spec fn bonus_spec(w: Seq<char>) -> int {
    if w.contains('c') {
        5
    } else {
        0
    }
}

/// Seven points off for a word that contains `'s'`.
pub open spec fn penalty_spec(w: Seq<char>) -> int {
    if w.contains('s') {
        7
    } else {
        0
    }
}

/// Base score plus the bonus for containing `'c'`.
pub open spec fn score_with_bonus_spec(w: Seq<char>) -> int {
    score_spec(w) + bonus_spec(w)
}

/// The verdict of a descending comparator on two scores: the higher score sorts first.
pub open spec fn descending(s1: int, s2: int) -> core::cmp::Ordering {
    if s2 < s1 {
        core::cmp::Ordering::Less
    } else if s2 == s1 {
        core::cmp::Ordering::Equal
    } else {
        core::cmp::Ordering::Greater
    }
}

/// Scores, widened to mathematical integers.
pub open spec fn keys_of(scores: Seq<i32>) -> Seq<int> {
    scores.map_values(|k: i32| k as int)
}

/// `perm` lists every index of `keys` once, by descending key, equal keys in index order.
pub open spec fn is_stable_ranking(keys: Seq<int>, perm: Seq<int>) -> bool {
    &&& perm.len() == keys.len()
    &&& forall|k: int| 0 <= k < perm.len() ==> 0 <= #[trigger] perm[k] < keys.len()
    &&& forall|k: int, l: int|
        #![trigger perm[k], perm[l]]
        0 <= k < l < perm.len() ==> perm[k] != perm[l]
    &&& forall|k: int, l: int|
        #![trigger perm[k], perm[l]]
        0 <= k < l < perm.len() ==> keys[perm[k]] >= keys[perm[l]]
    &&& forall|k: int, l: int|
        #![trigger perm[k], perm[l]]
        0 <= k < l < perm.len() && keys[perm[k]] == keys[perm[l]] ==> perm[k] < perm[l]
}

/// `out` is `words` stably sorted by descending `keys`.
pub open spec fn is_ranked(words: Seq<String>, keys: Seq<int>, out: Seq<String>) -> bool {
    &&& words.len() == keys.len()
    &&& out.len() == words.len()
    &&& exists|perm: Seq<int>|
        {
            &&& is_stable_ranking(keys, perm)
            &&& forall|k: int| 0 <= k < out.len() ==> out[k] == words[#[trigger] perm[k]]
        }
}

/// Counts the occurrences of `c` in `word`.
fn count_occurrences(word: &str, c: char) -> (r: usize)
    ensures
        r == count_char(word@, c),
        r <= word@.len(),
{
    let n: usize = word.unicode_len();
    let mut i: usize = 0;
    let mut k: usize = 0;
    while i < n
        invariant
            i <= n,
            n == word@.len(),
            k == count_char(word@.take(i as int), c),
            k <= i,
        decreases n - i,
    {
        assert(word@.take(i + 1).drop_last() =~= word@.take(i as int));
        if word.get_char(i) == c {
            k += 1;
        }
        i += 1;
    }
    assert(word@.take(n as int) =~= word@);
    k
}

/// Whether `word` contains the character `c`.
pub fn contains_char(word: &str, c: char) -> (r: bool)
    ensures
        r == word@.contains(c),
{
    let n: usize = word.unicode_len();
    let mut i: usize = 0;
    while i < n
        invariant
            i <= n,
            n == word@.len(),
            forall|j: int| 0 <= j < i ==> word@[j] != c,
        decreases n - i,
    {
        if word.get_char(i) == c {
            return true;
        }
        i += 1;
    }
    false
}

/// Base score of a word: its character count minus its number of `'a'`.
pub fn score(word: &str) -> (r: i32)
    requires
        word@.len() <= i32::MAX,
    ensures
        r == score_spec(word@),
{
    let n: usize = word.unicode_len();
    let k: usize = count_occurrences(word, 'a');
    (n - k) as i32
}

/// Bonus of five points for a word that contains `'c'`, else nothing.
pub fn bonus_points(word: &str) -> (r: i32)
    ensures
        r == bonus_spec(word@),
{
    if contains_char(word, 'c') {
        5
    } else {
        0
    }
}

/// Penalty of seven points for a word that contains `'s'`, else nothing.
pub fn penalty_points(word: &str) -> (r: i32)
    ensures
        r == penalty_spec(word@),
{
    if contains_char(word, 's') {
        7
    } else {
        0
    }
}

/// Base score plus the bonus for containing `'c'`.
pub fn score_with_bonus(word: &str) -> (r: i32)
    requires
        word@.len() + 5 <= i32::MAX,
    ensures
        r == score_with_bonus_spec(word@),
{
    let base: i32 = score(word);
    if contains_char(word, 'c') {
        base + 5
    } else {
        base
    }
}

/// Descending comparator by base score.
pub fn score_comparator(w1: &str, w2: &str) -> (r: core::cmp::Ordering)
    requires
        w1@.len() <= i32::MAX,
        w2@.len() <= i32::MAX,
    ensures
        r == descending(score_spec(w1@), score_spec(w2@)),
{
    let s1: i32 = score(w1);
    let s2: i32 = score(w2);
    if s2 < s1 {
        core::cmp::Ordering::Less
    } else if s2 == s1 {
        core::cmp::Ordering::Equal
    } else {
        core::cmp::Ordering::Greater
    }
}

/// Descending comparator by base score plus bonus.
pub fn score_with_bonus_comparator(w1: &str, w2: &str) -> (r: core::cmp::Ordering)
    requires
        w1@.len() + 5 <= i32::MAX,
        w2@.len() + 5 <= i32::MAX,
    ensures
        r == descending(score_with_bonus_spec(w1@), score_with_bonus_spec(w2@)),
{
    let s1: i32 = score_with_bonus(w1);
    let s2: i32 = score_with_bonus(w2);
    if s2 < s1 {
        core::cmp::Ordering::Less
    } else if s2 == s1 {
        core::cmp::Ordering::Equal
    } else {
        core::cmp::Ordering::Greater
    }
}

/// Ranks `words` by descending `scores[i]` (the score of `words[i]`), keeping the input order
/// of words with equal scores. The input is left as it is.
pub fn ranked_by_scores(words: &[String], scores: &[i32]) -> (r: Vec<String>)
    requires
        words@.len() == scores@.len(),
    ensures
        is_ranked(words@, keys_of(scores@), r@),
        r@.to_multiset() == words@.to_multiset(),
{
    let n: usize = words.len();
    let ghost keys = keys_of(scores@);
    let mut out: Vec<String> = Vec::with_capacity(n);
    let mut out_keys: Vec<i32> = Vec::with_capacity(n);
    let ghost mut perm: Seq<int> = Seq::empty();
    let mut i: usize = 0;
    assert(out@ =~= words@.take(0));
    while i < n
        invariant
            n == words@.len() == scores@.len() == keys.len(),
            keys == keys_of(scores@),
            i <= n,
            out@.len() == i,
            out_keys@.len() == i,
            perm.len() == i,
            forall|k: int| 0 <= k < i ==> 0 <= #[trigger] perm[k] < i,
            forall|k: int|
                0 <= k < i ==> out@[k] == words@[#[trigger] perm[k]] && out_keys@[k]
                    == scores@[perm[k]],
            forall|k: int, l: int|
                #![trigger perm[k], perm[l]]
                0 <= k < l < i ==> perm[k] != perm[l],
            forall|k: int, l: int|
                #![trigger out_keys@[k], out_keys@[l]]
                0 <= k < l < i ==> out_keys@[k] >= out_keys@[l],
            forall|k: int, l: int|
                #![trigger perm[k], perm[l]]
                0 <= k < l < i && out_keys@[k] == out_keys@[l] ==> perm[k] < perm[l],
            out@.to_multiset() == words@.take(i as int).to_multiset(),
        decreases n - i,
    {
        let key: i32 = scores[i];
        let mut j: usize = i;
        while j > 0 && out_keys[j - 1] < key
            invariant
                j <= i,
                out_keys@.len() == i,
                forall|k: int| j <= k < i ==> #[trigger] out_keys@[k] < key,
            decreases j,
        {
            j -= 1;
        }
        let ghost old_out = out@;
        let ghost old_keys = out_keys@;
        let ghost old_perm = perm;
        assert(forall|k: int| 0 <= k < j ==> #[trigger] old_keys[k] >= key) by {
            assert forall|k: int| 0 <= k < j implies #[trigger] old_keys[k] >= key by {
                if k < j - 1 {
                    assert(old_keys[k] >= old_keys[j - 1]);
                }
            }
        }
        out.insert(j, words[i].clone());
        out_keys.insert(j, key);
        proof {
            perm = perm.insert(j as int, i as int);
            old_out.insert_ensures(j as int, words@[i as int]);
            old_keys.insert_ensures(j as int, key);
            old_perm.insert_ensures(j as int, i as int);
            assert forall|k: int| 0 <= k < i + 1 implies 0 <= #[trigger] perm[k] < i + 1 by {
                if k > j {
                    assert(perm[k] == old_perm[k - 1]);
                }
            }
            assert forall|k: int| 0 <= k < i + 1 implies out@[k] == words@[#[trigger] perm[k]]
                && out_keys@[k] == scores@[perm[k]] by {
                if k > j {
                    assert(perm[k] == old_perm[k - 1]);
                    assert(out@[k] == old_out[k - 1]);
                    assert(out_keys@[k] == old_keys[k - 1]);
                }
            }
            assert forall|k: int, l: int| 0 <= k < l < i + 1 implies #[trigger] perm[k]
                != #[trigger] perm[l] && out_keys@[k] >= out_keys@[l] && (out_keys@[k]
                == out_keys@[l] ==> perm[k] < perm[l]) by {
                let ko: int = if k > j { k - 1 } else { k };
                let lo: int = if l > j { l - 1 } else { l };
                if k != j && l != j {
                    assert(perm[k] == old_perm[ko] && perm[l] == old_perm[lo]);
                    assert(out_keys@[k] == old_keys[ko] && out_keys@[l] == old_keys[lo]);
                    assert(old_perm[ko] != old_perm[lo]);
                } else if k == j {
                    assert(perm[l] == old_perm[lo] && out_keys@[l] == old_keys[lo]);
                    assert(old_keys[lo] < key);
                } else {
                    assert(perm[k] == old_perm[ko] && out_keys@[k] == old_keys[ko]);
                    assert(old_keys[ko] >= key);
                    assert(old_perm[ko] < i);
                }
            }
            vstd::seq_lib::to_multiset_insert(old_out, j as int, words@[i as int]);
            assert(words@.take(i + 1) =~= words@.take(i as int).push(words@[i as int]));
            vstd::seq_lib::to_multiset_build(words@.take(i as int), words@[i as int]);
        }
        i += 1;
    }
    proof {
        assert(words@.take(n as int) =~= words@);
        assert(is_stable_ranking(keys, perm));
    }
    out
}

/// `k` is a score that `f` gives to a word whose characters are `w`.
pub open spec fn scores_as<F: Fn(&str) -> i32>(f: F, w: Seq<char>, k: i32) -> bool {
    exists|s: &str| s@ == w && f.ensures((s,), k)
}

/// `f` may be called on every word of `words`.
pub open spec fn accepts_words<F: Fn(&str) -> i32>(f: F, words: Seq<String>) -> bool {
    forall|i: int, s: &str|
        #![trigger words[i], f.requires((s,))]
        0 <= i < words.len() && s@ == words[i]@ ==> f.requires((s,))
}

/// `scores` holds, for each word of `words`, a score that `f` gives it.
pub open spec fn scored_by<F: Fn(&str) -> i32>(
    f: F,
    words: Seq<String>,
    scores: Seq<i32>,
) -> bool {
    &&& scores.len() == words.len()
    &&& forall|i: int| 0 <= i < words.len() ==> scores_as(f, words[i]@, #[trigger] scores[i])
}

/// Base scores of `words`.
pub open spec fn base_keys(words: Seq<String>) -> Seq<int> {
    words.map_values(|w: String| score_spec(w@))
}

/// Every word of `words` is short enough for its score to fit in an `i32` with `extra` added.
pub open spec fn words_fit(words: Seq<String>, extra: int) -> bool {
    forall|i: int| 0 <= i < words.len() ==> #[trigger] words[i]@.len() + extra <= i32::MAX
}

/// Calls `word_score` on each word, in order.
fn scores_of<F: Fn(&str) -> i32>(word_score: &F, words: &[String]) -> (r: Vec<i32>)
    requires
        accepts_words(*word_score, words@),
    ensures
        scored_by(*word_score, words@, r@),
{
    let n: usize = words.len();
    let mut r: Vec<i32> = Vec::with_capacity(n);
    let mut i: usize = 0;
    while i < n
        invariant
            n == words@.len(),
            i <= n,
            accepts_words(*word_score, words@),
            r@.len() == i,
            forall|k: int| 0 <= k < i ==> scores_as(*word_score, words@[k]@, #[trigger] r@[k]),
        decreases n - i,
    {
        let w: &str = words[i].as_str();
        assert(word_score.requires((w,)));
        let k: i32 = word_score(w);
        r.push(k);
        i += 1;
    }
    r
}

/// The score that `word_score` gives to each word, in input order.
pub fn word_scores<F: Fn(&str) -> i32>(words: &[String], word_score: F) -> (r: Vec<i32>)
    requires
        accepts_words(word_score, words@),
    ensures
        scored_by(word_score, words@, r@),
{
    scores_of(&word_score, words)
}

/// Ranks `words` by descending score under `word_score`, equal scores in input order.
/// The input is left as it is.
pub fn ranked_words<F: Fn(&str) -> i32>(word_score: F, words: &[String]) -> (r: Vec<String>)
    requires
        accepts_words(word_score, words@),
    ensures
        exists|scores: Seq<i32>|
            scored_by(word_score, words@, scores) && is_ranked(words@, keys_of(scores), r@),
        r@.to_multiset() == words@.to_multiset(),
{
    let scores = scores_of(&word_score, words);
    ranked_by_scores(words, scores.as_slice())
}

/// The verdict for the swapped pair.
pub open spec fn reversed(o: core::cmp::Ordering) -> core::cmp::Ordering {
    match o {
        core::cmp::Ordering::Less => core::cmp::Ordering::Greater,
        core::cmp::Ordering::Equal => core::cmp::Ordering::Equal,
        core::cmp::Ordering::Greater => core::cmp::Ordering::Less,
    }
}

/// `o` is a verdict that `c` gives on two words whose characters are `a` and `b`.
pub open spec fn compares_as<F: Fn(&str, &str) -> core::cmp::Ordering>(
    c: F,
    a: Seq<char>,
    b: Seq<char>,
    o: core::cmp::Ordering,
) -> bool {
    exists|x: &str, y: &str| x@ == a && y@ == b && c.ensures((x, y), o)
}

/// `c` was seen to put the word `a` no later than the word `b`: on `(a, b)` it gave a verdict
/// other than `Greater`, or on `(b, a)` it gave `Greater`.
pub open spec fn in_order<F: Fn(&str, &str) -> core::cmp::Ordering>(
    c: F,
    a: Seq<char>,
    b: Seq<char>,
) -> bool {
    ||| exists|o: core::cmp::Ordering|
        compares_as(c, a, b, o) && o != core::cmp::Ordering::Greater
    ||| compares_as(c, b, a, core::cmp::Ordering::Greater)
}

/// `c` was seen to find the words `a` and `b` equal, in either order.
pub open spec fn found_equal<F: Fn(&str, &str) -> core::cmp::Ordering>(
    c: F,
    a: Seq<char>,
    b: Seq<char>,
) -> bool {
    compares_as(c, a, b, core::cmp::Ordering::Equal) || compares_as(
        c,
        b,
        a,
        core::cmp::Ordering::Equal,
    )
}

/// `c` may be called on any two words of `words`.
pub open spec fn accepts_pairs<F: Fn(&str, &str) -> core::cmp::Ordering>(
    c: F,
    words: Seq<String>,
) -> bool {
    forall|i: int, j: int, x: &str, y: &str|
        #![trigger words[i], words[j], c.requires((x, y))]
        0 <= i < words.len() && 0 <= j < words.len() && x@ == words[i]@ && y@ == words[j]@
            ==> c.requires((x, y))
}

/// `c` is consistent: it gives one verdict for a pair of words, and swapping the pair
/// reverses that verdict.
pub open spec fn is_consistent<F: Fn(&str, &str) -> core::cmp::Ordering>(c: F) -> bool {
    &&& forall|a: Seq<char>, b: Seq<char>, o1: core::cmp::Ordering, o2: core::cmp::Ordering|
        #![trigger compares_as(c, a, b, o1), compares_as(c, a, b, o2)]
        compares_as(c, a, b, o1) && compares_as(c, a, b, o2) ==> o1 == o2
    &&& forall|a: Seq<char>, b: Seq<char>, o1: core::cmp::Ordering, o2: core::cmp::Ordering|
        #![trigger compares_as(c, a, b, o1), compares_as(c, b, a, o2)]
        compares_as(c, a, b, o1) && compares_as(c, b, a, o2) ==> o2 == reversed(o1)
}

/// `out` is `words` put in order by `c`, equal words in input order: `out` reads `words`
/// through a permutation, each word is no later than the next, and two neighbours that `c`
/// finds equal keep their input order. For a comparator that orders words transitively this
/// fixes `out`.
pub open spec fn is_sorted_by<F: Fn(&str, &str) -> core::cmp::Ordering>(
    c: F,
    words: Seq<String>,
    out: Seq<String>,
) -> bool {
    &&& out.len() == words.len()
    &&& exists|perm: Seq<int>|
        {
            &&& perm.len() == words.len()
            &&& forall|k: int| 0 <= k < perm.len() ==> 0 <= #[trigger] perm[k] < words.len()
            &&& forall|k: int, l: int|
                #![trigger perm[k], perm[l]]
                0 <= k < l < perm.len() ==> perm[k] != perm[l]
            &&& forall|k: int| 0 <= k < out.len() ==> out[k] == words[#[trigger] perm[k]]
            &&& forall|k: int|
                0 <= k < out.len() - 1 ==> in_order(c, out[k]@, #[trigger] out[k + 1]@)
            &&& forall|k: int|
                0 <= k < out.len() - 1 && found_equal(c, out[k]@, #[trigger] out[k + 1]@)
                    ==> perm[k] < perm[k + 1]
        }
}

/// Sorts a copy of `words` with `comparator`, keeping the input order of words it finds equal.
/// The input is left as it is.
pub fn ranked_words_with_comp_signature<F: Fn(&str, &str) -> core::cmp::Ordering>(
    comparator: F,
    words: &[String],
) -> (r: Vec<String>)
    requires
        accepts_pairs(comparator, words@),
        is_consistent(comparator),
    ensures
        is_sorted_by(comparator, words@, r@),
        r@.to_multiset() == words@.to_multiset(),
{
    let n: usize = words.len();
    let mut out: Vec<String> = Vec::with_capacity(n);
    let ghost mut perm: Seq<int> = Seq::empty();
    let mut i: usize = 0;
    assert(out@ =~= words@.take(0));
    while i < n
        invariant
            n == words@.len(),
            accepts_pairs(comparator, words@),
            is_consistent(comparator),
            i <= n,
            out@.len() == i,
            perm.len() == i,
            forall|k: int| 0 <= k < i ==> 0 <= #[trigger] perm[k] < i,
            forall|k: int| 0 <= k < i ==> out@[k] == words@[#[trigger] perm[k]],
            forall|k: int, l: int|
                #![trigger perm[k], perm[l]]
                0 <= k < l < i ==> perm[k] != perm[l],
            forall|k: int| 0 <= k < i - 1 ==> in_order(comparator, out@[k]@, #[trigger] out@[k + 1]@),
            forall|k: int|
                0 <= k < i - 1 && found_equal(comparator, out@[k]@, #[trigger] out@[k + 1]@)
                    ==> perm[k] < perm[k + 1],
            out@.to_multiset() == words@.take(i as int).to_multiset(),
        decreases n - i,
    {
        let ghost x = words@[i as int];
        let mut j: usize = i;
        let mut found: bool = false;
        while !found && j > 0
            invariant
                j <= i < n,
                n == words@.len(),
                x == words@[i as int],
                out@.len() == i,
                perm.len() == i,
                forall|k: int| 0 <= k < i ==> out@[k] == words@[#[trigger] perm[k]],
                forall|k: int| 0 <= k < i ==> 0 <= #[trigger] perm[k] < i,
                accepts_pairs(comparator, words@),
                is_consistent(comparator),
                j < i ==> compares_as(comparator, out@[j as int]@, x@, core::cmp::Ordering::Greater),
                found ==> j > 0 && in_order(comparator, out@[j - 1]@, x@),
            decreases 2 * j + if found { 0int } else { 1int },
        {
            let a: &str = out[j - 1].as_str();
            let b: &str = words[i].as_str();
            assert(out@[j - 1] == words@[perm[j - 1]]);
            assert(comparator.requires((a, b)));
            let o = comparator(a, b);
            assert(compares_as(comparator, out@[j - 1]@, x@, o));
            match o {
                core::cmp::Ordering::Greater => {
                    j -= 1;
                },
                _ => {
                    assert(in_order(comparator, out@[j - 1]@, x@));
                    found = true;
                },
            }
        }
        let ghost old_out = out@;
        let ghost old_perm = perm;
        out.insert(j, words[i].clone());
        proof {
            perm = perm.insert(j as int, i as int);
            old_out.insert_ensures(j as int, x);
            old_perm.insert_ensures(j as int, i as int);
            assert forall|k: int| 0 <= k < i + 1 implies 0 <= #[trigger] perm[k] < i + 1
                && out@[k] == words@[perm[k]] by {
                if k > j {
                    assert(perm[k] == old_perm[k - 1]);
                    assert(out@[k] == old_out[k - 1]);
                }
            }
            assert forall|k: int, l: int| 0 <= k < l < i + 1 implies #[trigger] perm[k]
                != #[trigger] perm[l] by {
                let ko: int = if k > j { k - 1 } else { k };
                let lo: int = if l > j { l - 1 } else { l };
                if k != j && l != j {
                    assert(perm[k] == old_perm[ko] && perm[l] == old_perm[lo]);
                } else if k == j {
                    assert(perm[l] == old_perm[lo]);
                } else {
                    assert(perm[k] == old_perm[ko]);
                }
            }
            assert forall|k: int| 0 <= k < i implies in_order(
                comparator,
                out@[k]@,
                #[trigger] out@[k + 1]@,
            ) && (found_equal(comparator, out@[k]@, out@[k + 1]@) ==> perm[k] < perm[k + 1]) by {
                if k + 1 < j {
                    assert(out@[k] == old_out[k] && out@[k + 1] == old_out[k + 1]);
                    assert(perm[k] == old_perm[k] && perm[k + 1] == old_perm[k + 1]);
                } else if k + 1 == j {
                    assert(out@[k] == old_out[k] && out@[k + 1] == x);
                    assert(perm[k] == old_perm[k]);
                } else if k == j {
                    assert(out@[k] == x && out@[k + 1] == old_out[k]);
                    assert(compares_as(comparator, old_out[k]@, x@, core::cmp::Ordering::Greater));
                    if compares_as(comparator, x@, old_out[k]@, core::cmp::Ordering::Equal) {
                        assert(reversed(core::cmp::Ordering::Equal) == core::cmp::Ordering::Equal);
                    }
                } else {
                    assert(out@[k] == old_out[k - 1] && out@[k + 1] == old_out[k]);
                    assert(perm[k] == old_perm[k - 1] && perm[k + 1] == old_perm[k]);
                }
            }
            vstd::seq_lib::to_multiset_insert(old_out, j as int, x);
            assert(words@.take(i + 1) =~= words@.take(i as int).push(x));
            vstd::seq_lib::to_multiset_build(words@.take(i as int), x);
        }
        i += 1;
    }
    proof {
        assert(words@.take(n as int) =~= words@);
    }
    out
}

/// The comparator by base score is consistent.
pub proof fn lemma_score_comparator_is_consistent()
    ensures
        is_consistent(score_comparator),
{
}

/// The comparator by base score plus bonus is consistent.
pub proof fn lemma_score_with_bonus_comparator_is_consistent()
    ensures
        is_consistent(score_with_bonus_comparator),
{
}

/// Base score of each word, in input order.
pub(crate) fn base_scores(words: &[String]) -> (r: Vec<i32>)
    requires
        words_fit(words@, 0),
    ensures
        r@.len() == words@.len(),
        keys_of(r@) == base_keys(words@),
{
    let r = scores_of(&score, words);
    assert(keys_of(r@) =~= base_keys(words@));
    r
}

/// Ranks the caller's own vector in place by descending base score, equal scores in input
/// order, and hands back a copy of the result. The change to the argument is visible to the
/// caller; prefer `ranked_words_reference_only`, which leaves its input alone.
pub fn ranked_mut_words_with_hidden_flow(words: &mut Vec<String>) -> (r: Vec<String>)
    requires
        words_fit(old(words)@, 0),
    ensures
        is_ranked(old(words)@, base_keys(old(words)@), r@),
        r@.to_multiset() == old(words)@.to_multiset(),
        final(words)@ == r@,
        out_of_order(base_keys(old(words)@)) ==> final(words)@ != old(words)@,
{
    let ghost before = words@;
    let scores = base_scores(words.as_slice());
    let sorted = ranked_by_scores(words.as_slice(), scores.as_slice());
    proof {
        if out_of_order(base_keys(before)) {
            lemma_ranking_reorders(before, sorted@);
        }
    }
    *words = sorted.clone();
    sorted
}

/// Some word of `keys`' sequence has a lower key than a word after it.
pub open spec fn out_of_order(keys: Seq<int>) -> bool {
    exists|k: int, l: int| 0 <= k < l < keys.len() && keys[k] < keys[l]
}

/// A ranking by base score of a sequence that is out of order differs from it.
proof fn lemma_ranking_reorders(words: Seq<String>, out: Seq<String>)
    requires
        is_ranked(words, base_keys(words), out),
        out_of_order(base_keys(words)),
    ensures
        out != words,
{
    let keys = base_keys(words);
    let (k, l) = choose|k: int, l: int| 0 <= k < l < keys.len() && keys[k] < keys[l];
    let perm = choose|perm: Seq<int>|
        {
            &&& is_stable_ranking(keys, perm)
            &&& forall|m: int| 0 <= m < out.len() ==> out[m] == words[#[trigger] perm[m]]
        };
    if out == words {
        assert(words[perm[k]] == words[k]);
        assert(words[perm[l]] == words[l]);
        assert(keys[perm[k]] >= keys[perm[l]]);
    }
}

/// Ranks a copy of `words` by descending base score, equal scores in input order.
pub fn ranked_words_reference_only(words: &[String]) -> (r: Vec<String>)
    requires
        words_fit(words@, 0),
    ensures
        is_ranked(words@, base_keys(words@), r@),
        r@.to_multiset() == words@.to_multiset(),
{
    let scores = base_scores(words);
    ranked_by_scores(words, scores.as_slice())
}

/// The words whose key is strictly above `threshold`, in input order.
pub open spec fn kept_above(words: Seq<String>, keys: Seq<int>, threshold: int) -> Seq<String>
    decreases words.len(),
{
    if words.len() == 0 {
        Seq::empty()
    } else {
        let rest = kept_above(words.drop_last(), keys.drop_last(), threshold);
        if keys.last() > threshold {
            rest.push(words.last())
        } else {
            rest
        }
    }
}

/// The words of `words` whose score in `scores` (the score of `words[i]` is `scores[i]`) is
/// strictly above `threshold`, in input order.
pub fn words_above(words: &[String], scores: &[i32], threshold: i32) -> (r: Vec<String>)
    requires
        words@.len() == scores@.len(),
    ensures
        r@ == kept_above(words@, keys_of(scores@), threshold as int),
{
    let n: usize = words.len();
    let mut r: Vec<String> = Vec::new();
    let mut i: usize = 0;
    while i < n
        invariant
            n == words@.len() == scores@.len(),
            i <= n,
            r@ == kept_above(words@.take(i as int), keys_of(scores@).take(i as int), threshold as int),
        decreases n - i,
    {
        assert(words@.take(i + 1).drop_last() =~= words@.take(i as int));
        assert(keys_of(scores@).take(i + 1).drop_last() =~= keys_of(scores@).take(i as int));
        if scores[i] > threshold {
            r.push(words[i].clone());
        }
        i += 1;
    }
    assert(words@.take(n as int) =~= words@);
    assert(keys_of(scores@).take(n as int) =~= keys_of(scores@));
    r
}

/// The words that `word_score` scores above 1, in input order: a loop that calls the
/// scoring function on each word as it goes.
pub fn high_scoring_words_imperative<F: Fn(&str) -> i32>(
    words: &[String],
    word_score: F,
) -> (r: Vec<String>)
    requires
        accepts_words(word_score, words@),
    ensures
        exists|scores: Seq<i32>|
            scored_by(word_score, words@, scores) && r@ == kept_above(words@, keys_of(scores), 1),
{
    let n: usize = words.len();
    let mut result: Vec<String> = Vec::with_capacity(n);
    let ghost mut scores: Seq<i32> = Seq::empty();
    let mut i: usize = 0;
    while i < n
        invariant
            n == words@.len(),
            i <= n,
            accepts_words(word_score, words@),
            scores.len() == i,
            forall|k: int| 0 <= k < i ==> scores_as(word_score, words@[k]@, #[trigger] scores[k]),
            result@ == kept_above(words@.take(i as int), keys_of(scores), 1),
        decreases n - i,
    {
        let w: &str = words[i].as_str();
        assert(word_score.requires((w,)));
        let k: i32 = word_score(w);
        proof {
            let old_scores = scores;
            scores = scores.push(k);
            assert(words@.take(i + 1).drop_last() =~= words@.take(i as int));
            assert(keys_of(scores).drop_last() =~= keys_of(old_scores));
            assert(scores_as(word_score, words@[i as int]@, k));
        }
        if k > 1 {
            result.push(words[i].clone());
        }
        i += 1;
    }
    assert(words@.take(n as int) =~= words@);
    assert(scored_by(word_score, words@, scores));
    result
}

/// The words that `word_score` scores above 1, in input order: the scores first, then a
/// filter over them.
pub fn high_scoring_words_declarative<F: Fn(&str) -> i32>(
    words: &[String],
    word_score: F,
) -> (r: Vec<String>)
    requires
        accepts_words(word_score, words@),
    ensures
        exists|scores: Seq<i32>|
            scored_by(word_score, words@, scores) && r@ == kept_above(words@, keys_of(scores), 1),
{
    let scores = scores_of(&word_score, words);
    words_above(words, scores.as_slice(), 1)
}

/// Words with their scores, waiting for a threshold: `higher_than(t)` lists the words that
/// score strictly above `t`.
pub struct HighScoringWords {
    words: Vec<String>,
    scores: Vec<i32>,
}

impl HighScoringWords {
    /// The words held, in order.
    pub closed spec fn words(&self) -> Seq<String> {
        self.words@
    }

    /// The score of each word held.
    pub closed spec fn scores(&self) -> Seq<i32> {
        self.scores@
    }

    /// One score for each word.
    pub closed spec fn wf(&self) -> bool {
        self.words@.len() == self.scores@.len()
    }

    /// The words that score strictly above `higher_than`, in input order.
    pub fn higher_than(&self, higher_than: i32) -> (r: Vec<String>)
        requires
            self.wf(),
        ensures
            r@ == kept_above(self.words(), keys_of(self.scores()), higher_than as int),
    {
        words_above(self.words.as_slice(), self.scores.as_slice(), higher_than)
    }
}

/// Binds `words` to `word_score` and leaves the threshold for later: the result's
/// `higher_than(t)` lists the words that score strictly above `t`, in input order.
pub fn high_scoring_words_fn<F: Fn(&str) -> i32>(
    words: Vec<String>,
    word_score: F,
) -> (r: HighScoringWords)
    requires
        accepts_words(word_score, words@),
    ensures
        r.wf(),
        r.words() == words@,
        scored_by(word_score, words@, r.scores()),
{
    let scores = scores_of(&word_score, words.as_slice());
    HighScoringWords { words, scores }
}

/// Ranks `words` four times with comparators held in closures: twice by base score and twice
/// by base score plus bonus, once through a named closure and once through one written in
/// the call. Each closure states its verdict, which is what lets it meet the consistency that
/// `ranked_words_with_comp_signature` asks of a comparator.
pub fn closure_examples(words: &[String])
    requires
        words_fit(words@, 5),
{
    let by_score = |w1: &str, w2: &str| -> (o: core::cmp::Ordering)
        requires
            w1@.len() <= i32::MAX,
            w2@.len() <= i32::MAX,
        ensures
            o == descending(score_spec(w1@), score_spec(w2@)),
        { score_comparator(w1, w2) };
    let by_score_with_bonus = |w1: &str, w2: &str| -> (o: core::cmp::Ordering)
        requires
            w1@.len() + 5 <= i32::MAX,
            w2@.len() + 5 <= i32::MAX,
        ensures
            o == descending(score_with_bonus_spec(w1@), score_with_bonus_spec(w2@)),
        { score_with_bonus_comparator(w1, w2) };

    let _ = ranked_words_with_comp_signature(by_score, words);
    let _ = ranked_words_with_comp_signature(
        (|w1: &str, w2: &str| -> (o: core::cmp::Ordering)
            requires
                w1@.len() <= i32::MAX,
                w2@.len() <= i32::MAX,
            ensures
                o == descending(score_spec(w1@), score_spec(w2@)),
            { score_comparator(w1, w2) }),
        words,
    );
    let _ = ranked_words_with_comp_signature(by_score_with_bonus, words);
    let _ = ranked_words_with_comp_signature(
        (|w1: &str, w2: &str| -> (o: core::cmp::Ordering)
            requires
                w1@.len() + 5 <= i32::MAX,
                w2@.len() + 5 <= i32::MAX,
            ensures
                o == descending(score_with_bonus_spec(w1@), score_with_bonus_spec(w2@)),
            { score_with_bonus_comparator(w1, w2) }),
        words,
    );
}

} // verus!
