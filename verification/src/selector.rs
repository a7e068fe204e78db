//! The guess selector: greedy letter-frequency balancing.
//!
//! Letters are ranked by how close the number of pool words containing
//! them comes to half the pool ("discriminating" letters first, with ties
//! kept in order of first occurrence in the pool), and the vocabulary is
//! narrowed by up to `LETTER_BUDGET` of those letters in turn, skipping a
//! letter whenever applying it would empty the working set.

use vstd::prelude::*;
use vstd::string::StrSliceExecFns;

verus! {

use crate::words::contains_char;

/// At most this many discriminating letters narrow the vocabulary.
pub const LETTER_BUDGET: usize = 5;

/// All letters of all pool words, in order.
pub open spec fn flat(pool: Seq<Seq<char>>) -> Seq<char>
    decreases pool.len(),
{
    if pool.len() == 0 {
        Seq::empty()
    } else {
        flat(pool.drop_last()) + pool.last()
    }
}

/// The distinct letters of `s`, each kept at its first occurrence.
pub open spec fn dedup_first(s: Seq<char>) -> Seq<char>
    decreases s.len(),
{
    if s.len() == 0 {
        Seq::empty()
    } else {
        let rest = dedup_first(s.drop_last());
        if rest.contains(s.last()) {
            rest
        } else {
            rest.push(s.last())
        }
    }
}

/// How many pool words contain the letter `c` (a repeated letter counts
/// once per word).
pub open spec fn count_containing(pool: Seq<Seq<char>>, c: char) -> int
    decreases pool.len(),
{
    if pool.len() == 0 {
        0
    } else {
        count_containing(pool.drop_last(), c) + if pool.last().contains(c) {
            1int
        } else {
            0int
        }
    }
}

/// A letter's balance score: distance between the number of pool words
/// containing it and half the pool. Score 0 splits the pool evenly and is
/// most discriminating.
pub open spec fn score(pool: Seq<Seq<char>>, c: char) -> int {
    let half = pool.len() as int / 2;
    let cnt = count_containing(pool, c);
    if cnt >= half {
        cnt - half
    } else {
        half - cnt
    }
}

/// Letters in non-decreasing score order.
pub open spec fn sorted_by_score(pool: Seq<Seq<char>>, s: Seq<char>) -> bool {
    forall|i: int, j: int| 0 <= i <= j < s.len() ==> score(pool, s[i]) <= score(pool, s[j])
}

/// Where `x` lands when inserted from the right: after every letter whose
/// score is below or equal to its own, which keeps equal scores stable.
pub open spec fn insert_by_score(pool: Seq<Seq<char>>, s: Seq<char>, x: char) -> Seq<char>
    decreases s.len(),
{
    if s.len() == 0 {
        seq![x]
    } else if score(pool, s.last()) <= score(pool, x) {
        s.push(x)
    } else {
        insert_by_score(pool, s.drop_last(), x).push(s.last())
    }
}

/// Stable insertion sort of letters by ascending balance score.
pub open spec fn sort_by_score(pool: Seq<Seq<char>>, s: Seq<char>) -> Seq<char>
    decreases s.len(),
{
    if s.len() == 0 {
        Seq::empty()
    } else {
        insert_by_score(pool, sort_by_score(pool, s.drop_last()), s.last())
    }
}

/// The subsequence of `vocab` whose words contain the letter `c`.
pub open spec fn keep_containing(vocab: Seq<Seq<char>>, c: char) -> Seq<Seq<char>>
    decreases vocab.len(),
{
    if vocab.len() == 0 {
        Seq::empty()
    } else {
        let rest = keep_containing(vocab.drop_last(), c);
        if vocab.last().contains(c) {
            rest.push(vocab.last())
        } else {
            rest
        }
    }
}

/// Narrows the vocabulary by the ranked letters in turn: a letter is
/// applied only when some word survives it, at most `LETTER_BUDGET`
/// letters are applied, and narrowing stops once a single word is left.
pub open spec fn narrow(vocab: Seq<Seq<char>>, letters: Seq<char>, applied: int) -> Seq<
    Seq<char>,
>
    decreases letters.len(),
{
    if letters.len() == 0 || applied >= LETTER_BUDGET || vocab.len() == 1 {
        vocab
    } else {
        let next = keep_containing(vocab, letters[0]);
        if next.len() > 0 {
            narrow(next, letters.drop_first(), applied + 1)
        } else {
            narrow(vocab, letters.drop_first(), applied)
        }
    }
}

/// What the selector returns: the vocabulary narrowed by the pool's
/// letters, ranked by balance score with ties in first-occurrence order.
pub open spec fn select_spec(pool: Seq<Seq<char>>, vocab: Seq<Seq<char>>) -> Seq<Seq<char>> {
    narrow(vocab, sort_by_score(pool, dedup_first(flat(pool))), 0)
}

fn vec_contains_char(v: &Vec<char>, c: char) -> (r: bool)
    ensures
        r == v@.contains(c),
{
    let n = v.len();
    let mut j: usize = 0;
    while j < n
        invariant
            n == v@.len(),
            j <= n,
            forall|k: int| 0 <= k < j ==> v@[k] != c,
        decreases n - j,
    {
        if v[j] == c {
            assert(v@[j as int] == c);
            return true;
        }
        j += 1;
    }
    assert(!v@.contains(c));
    false
}

/// The distinct letters of the pool, in order of first occurrence.
fn distinct_letters(pool: &[String]) -> (r: Vec<char>)
    ensures
        r@ == dedup_first(flat(pool.deep_view())),
{
    let ghost pdv = pool.deep_view();
    let mut letters: Vec<char> = Vec::new();
    let n = pool.len();
    let mut i: usize = 0;
    while i < n
        invariant
            pdv == pool.deep_view(),
            n == pool@.len(),
            i <= n,
            letters@ == dedup_first(flat(pdv.take(i as int))),
        decreases n - i,
    {
        let ghost base = flat(pdv.take(i as int));
        let ghost word = pdv[i as int];
        assert(word == pool@[i as int]@);
        let m = pool[i].as_str().unicode_len();
        proof {
            assert(base + word.take(0) =~= base);
        }
        let mut j: usize = 0;
        while j < m
            invariant
                pdv == pool.deep_view(),
                n == pool@.len(),
                i < n,
                base == flat(pdv.take(i as int)),
                word == pdv[i as int],
                word == pool@[i as int]@,
                m == word.len(),
                j <= m,
                letters@ == dedup_first(base + word.take(j as int)),
            decreases m - j,
        {
            let c = pool[i].as_str().get_char(j);
            let seen = vec_contains_char(&letters, c);
            if !seen {
                letters.push(c);
            }
            proof {
                assert((base + word.take(j + 1 as int)).drop_last() =~= base + word.take(j as int));
                assert((base + word.take(j + 1 as int)).last() == word[j as int]);
            }
            j += 1;
        }
        proof {
            assert(word.take(m as int) =~= word);
            assert(pdv.take(i + 1 as int).drop_last() =~= pdv.take(i as int));
            assert(pdv.take(i + 1 as int).last() == word);
            assert(flat(pdv.take(i + 1 as int)) == base + word);
        }
        i += 1;
    }
    proof {
        assert(pdv.take(n as int) =~= pdv);
    }
    letters
}

/// How many pool words contain the letter `c`.
fn count_words_with(pool: &[String], c: char) -> (r: usize)
    ensures
        r as int == count_containing(pool.deep_view(), c),
        r <= pool@.len(),
{
    let ghost pdv = pool.deep_view();
    let n = pool.len();
    let mut count: usize = 0;
    let mut i: usize = 0;
    while i < n
        invariant
            pdv == pool.deep_view(),
            n == pool@.len(),
            i <= n,
            count as int == count_containing(pdv.take(i as int), c),
            count <= i,
        decreases n - i,
    {
        assert(pdv[i as int] == pool@[i as int]@);
        if contains_char(pool[i].as_str(), c) {
            count += 1;
        }
        proof {
            assert(pdv.take(i + 1 as int).drop_last() =~= pdv.take(i as int));
            assert(pdv.take(i + 1 as int).last() == pdv[i as int]);
        }
        i += 1;
    }
    proof {
        assert(pdv.take(n as int) =~= pdv);
    }
    count
}

/// The balance score of the letter `c` over the pool.
fn score_ex(pool: &[String], c: char) -> (r: usize)
    ensures
        r as int == score(pool.deep_view(), c),
{
    let half = pool.len() / 2;
    let cnt = count_words_with(pool, c);
    if cnt >= half {
        cnt - half
    } else {
        half - cnt
    }
}

proof fn lemma_insert_by_score_at(pool: Seq<Seq<char>>, s: Seq<char>, x: char, q: int)
    requires
        0 <= q <= s.len(),
        forall|j: int| 0 <= j < q ==> score(pool, #[trigger] s[j]) <= score(pool, x),
        forall|j: int| q <= j < s.len() ==> score(pool, #[trigger] s[j]) > score(pool, x),
    ensures
        insert_by_score(pool, s, x) == s.subrange(0, q).push(x) + s.subrange(q, s.len() as int),
    decreases s.len(),
{
    if s.len() == 0 {
        assert(insert_by_score(pool, s, x) =~= s.subrange(0, q).push(x) + s.subrange(
            q,
            s.len() as int,
        ));
    } else if q == s.len() {
        assert(score(pool, s.last()) <= score(pool, x));
        assert(s.push(x) =~= s.subrange(0, q).push(x) + s.subrange(q, s.len() as int));
    } else {
        assert(score(pool, s.last()) > score(pool, x));
        let dl = s.drop_last();
        lemma_insert_by_score_at(pool, dl, x, q);
        assert((dl.subrange(0, q).push(x) + dl.subrange(q, dl.len() as int)).push(s.last()) =~= s
            .subrange(0, q).push(x) + s.subrange(q, s.len() as int));
    }
}

fn insert_one_score(pool: &[String], out: &mut Vec<char>, x: char)
    requires
        sorted_by_score(pool.deep_view(), old(out)@),
    ensures
        final(out)@ == insert_by_score(pool.deep_view(), old(out)@, x),
        sorted_by_score(pool.deep_view(), final(out)@),
{
    let ghost pdv = pool.deep_view();
    let ghost orig = out@;
    let sx = score_ex(pool, x);
    let mut q = out.len();
    while q > 0 && score_ex(pool, out[q - 1]) > sx
        invariant
            pdv == pool.deep_view(),
            out@ == orig,
            q <= out@.len(),
            sx as int == score(pdv, x),
            forall|j: int| q <= j < out@.len() ==> score(pdv, #[trigger] out@[j]) > score(pdv, x),
        decreases q,
    {
        q -= 1;
    }
    proof {
        assert forall|j: int| 0 <= j < q implies score(pdv, #[trigger] orig[j]) <= score(
            pdv,
            x,
        ) by {
            assert(score(pdv, orig[j]) <= score(pdv, orig[q - 1]));
        }
        lemma_insert_by_score_at(pdv, orig, x, q as int);
    }
    out.insert(q, x);
    proof {
        let ins = insert_by_score(pdv, orig, x);
        assert(out@ =~= ins);
        assert forall|i: int, j: int| 0 <= i <= j < ins.len() implies score(pdv, ins[i]) <= score(
            pdv,
            ins[j],
        ) by {
            let ghost qq = q as int;
            if i < qq {
                assert(ins[i] == orig[i]);
            } else if i == qq {
                assert(ins[i] == x);
            } else {
                assert(ins[i] == orig[i - 1]);
            }
            if j < qq {
                assert(ins[j] == orig[j]);
            } else if j == qq {
                assert(ins[j] == x);
            } else {
                assert(ins[j] == orig[j - 1]);
            }
        }
    }
}

/// The pool's distinct letters ranked by ascending balance score, ties in
/// first-occurrence order.
fn rank_letters(pool: &[String], letters: &Vec<char>) -> (r: Vec<char>)
    ensures
        r@ == sort_by_score(pool.deep_view(), letters@),
        sorted_by_score(pool.deep_view(), r@),
{
    let ghost pdv = pool.deep_view();
    let n = letters.len();
    let mut out: Vec<char> = Vec::new();
    let mut i: usize = 0;
    while i < n
        invariant
            pdv == pool.deep_view(),
            n == letters@.len(),
            i <= n,
            out@ == sort_by_score(pdv, letters@.take(i as int)),
            sorted_by_score(pdv, out@),
        decreases n - i,
    {
        insert_one_score(pool, &mut out, letters[i]);
        proof {
            assert(letters@.take(i + 1 as int).drop_last() =~= letters@.take(i as int));
            assert(letters@.take(i + 1 as int).last() == letters@[i as int]);
        }
        i += 1;
    }
    proof {
        assert(letters@.take(n as int) =~= letters@);
    }
    out
}

/// The words of `vocab` that contain the letter `c`, in order.
fn filter_by_letter(vocab: &Vec<String>, c: char) -> (r: Vec<String>)
    ensures
        r.deep_view() == keep_containing(vocab.deep_view(), c),
{
    let ghost vdv = vocab.deep_view();
    let mut kept: Vec<String> = Vec::new();
    let n = vocab.len();
    let mut i: usize = 0;
    while i < n
        invariant
            vdv == vocab.deep_view(),
            n == vocab@.len(),
            i <= n,
            kept.deep_view() == keep_containing(vdv.take(i as int), c),
        decreases n - i,
    {
        let ghost prev = kept.deep_view();
        assert(vdv[i as int] == vocab@[i as int]@);
        if contains_char(vocab[i].as_str(), c) {
            let w = vocab[i].clone();
            kept.push(w);
            assert(kept.deep_view() =~= prev.push(vdv[i as int]));
        }
        proof {
            assert(vdv.take(i + 1 as int).drop_last() =~= vdv.take(i as int));
            assert(vdv.take(i + 1 as int).last() == vdv[i as int]);
        }
        i += 1;
    }
    proof {
        assert(vdv.take(n as int) =~= vdv);
    }
    kept
}

fn clone_words(words: &[String]) -> (r: Vec<String>)
    ensures
        r@ == words@,
        r.deep_view() == words.deep_view(),
{
    let n = words.len();
    let mut out: Vec<String> = Vec::new();
    let mut i: usize = 0;
    while i < n
        invariant
            n == words@.len(),
            i <= n,
            out@ == words@.take(i as int),
        decreases n - i,
    {
        let w = words[i].clone();
        out.push(w);
        assert(out@ =~= words@.take(i + 1 as int));
        i += 1;
    }
    proof {
        assert(words@.take(n as int) =~= words@);
        assert(out.deep_view() =~= words.deep_view());
    }
    out
}

/// Narrowing never empties a non-empty vocabulary: a letter that would
/// leave nothing is skipped.
pub proof fn lemma_narrow_nonempty(vocab: Seq<Seq<char>>, letters: Seq<char>, applied: int)
    requires
        vocab.len() > 0,
    ensures
        narrow(vocab, letters, applied).len() > 0,
    decreases letters.len(),
{
    if !(letters.len() == 0 || applied >= LETTER_BUDGET || vocab.len() == 1) {
        let next = keep_containing(vocab, letters[0]);
        if next.len() > 0 {
            lemma_narrow_nonempty(next, letters.drop_first(), applied + 1);
        } else {
            lemma_narrow_nonempty(vocab, letters.drop_first(), applied);
        }
    }
}

proof fn lemma_keep_subset(vocab: Seq<Seq<char>>, c: char, j: int)
    requires
        0 <= j < keep_containing(vocab, c).len(),
    ensures
        vocab.contains(keep_containing(vocab, c)[j]),
    decreases vocab.len(),
{
    if vocab.len() > 0 {
        let rest = keep_containing(vocab.drop_last(), c);
        if j < rest.len() {
            lemma_keep_subset(vocab.drop_last(), c, j);
            let k = choose|k: int| 0 <= k < vocab.drop_last().len() && vocab.drop_last()[k]
                == rest[j];
            assert(vocab[k] == keep_containing(vocab, c)[j]);
        } else {
            assert(vocab[vocab.len() - 1] == keep_containing(vocab, c)[j]);
        }
    }
}

/// Every suggested word comes from the vocabulary.
pub proof fn lemma_narrow_subset(vocab: Seq<Seq<char>>, letters: Seq<char>, applied: int, j: int)
    requires
        0 <= j < narrow(vocab, letters, applied).len(),
    ensures
        vocab.contains(narrow(vocab, letters, applied)[j]),
    decreases letters.len(),
{
    let out = narrow(vocab, letters, applied);
    if letters.len() == 0 || applied >= LETTER_BUDGET || vocab.len() == 1 {
        assert(vocab[j] == out[j]);
    } else {
        let next = keep_containing(vocab, letters[0]);
        if next.len() > 0 {
            lemma_narrow_subset(next, letters.drop_first(), applied + 1, j);
            let k = choose|k: int| 0 <= k < next.len() && next[k] == out[j];
            lemma_keep_subset(vocab, letters[0], k);
        } else {
            lemma_narrow_subset(vocab, letters.drop_first(), applied, j);
        }
    }
}

/// Computes the ranked guess suggestions: the vocabulary narrowed by the
/// pool's most discriminating letters. The result is pinned exactly by
/// `select_spec`, so equal inputs always yield equal output, and it is
/// never empty when the vocabulary is not.
pub fn calculate_guesses(possibilities: &[String], words: &[String]) -> (r: Vec<String>)
    ensures
        r.deep_view() == select_spec(possibilities.deep_view(), words.deep_view()),
        words@.len() > 0 ==> r@.len() > 0,
        forall|j: int|
            0 <= j < r@.len() ==> words.deep_view().contains(#[trigger] r.deep_view()[j]),
{
    let ghost pdv = possibilities.deep_view();
    let ghost wdv = words.deep_view();
    let letters = distinct_letters(possibilities);
    let ranked = rank_letters(possibilities, &letters);
    let mut chosen: Vec<String> = clone_words(words);
    let mut applied: usize = 0;
    let n = ranked.len();
    let mut i: usize = 0;
    proof {
        assert(ranked@.skip(0) =~= ranked@);
    }
    while i < n && applied < LETTER_BUDGET && chosen.len() != 1
        invariant
            pdv == possibilities.deep_view(),
            wdv == words.deep_view(),
            n == ranked@.len(),
            i <= n,
            applied <= LETTER_BUDGET,
            select_spec(pdv, wdv) == narrow(chosen.deep_view(), ranked@.skip(i as int), applied as int),
            wdv.len() > 0 ==> chosen.deep_view().len() > 0,
        decreases n - i,
    {
        let ghost before = chosen.deep_view();
        let c = ranked[i];
        let next = filter_by_letter(&chosen, c);
        proof {
            assert(ranked@.skip(i as int)[0] == ranked@[i as int]);
            assert(ranked@.skip(i as int).drop_first() =~= ranked@.skip(i + 1 as int));
        }
        if next.len() > 0 {
            assert(next.deep_view().len() == next@.len());
            chosen = next;
            applied += 1;
        } else {
            assert(next.deep_view().len() == 0);
        }
        i += 1;
    }
    proof {
        let out = select_spec(pdv, wdv);
        assert forall|j: int| 0 <= j < out.len() implies wdv.contains(#[trigger] out[j]) by {
            lemma_narrow_subset(wdv, sort_by_score(pdv, dedup_first(flat(pdv))), 0, j);
        }
    }
    chosen
}

/// Selector determinism: results computed from identical inputs are
/// identical, because the result is a function of the inputs alone.
pub proof fn lemma_selector_deterministic(
    pool: Seq<Seq<char>>,
    vocab: Seq<Seq<char>>,
    r1: Seq<Seq<char>>,
    r2: Seq<Seq<char>>,
)
    requires
        r1 == select_spec(pool, vocab),
        r2 == select_spec(pool, vocab),
    ensures
        r1 == r2,
{
}

/// Selector non-emptiness: a non-empty vocabulary always yields at least
/// one suggestion.
pub proof fn lemma_selector_nonempty(pool: Seq<Seq<char>>, vocab: Seq<Seq<char>>)
    requires
        vocab.len() > 0,
    ensures
        select_spec(pool, vocab).len() > 0,
{
    lemma_narrow_nonempty(vocab, sort_by_score(pool, dedup_first(flat(pool))), 0);
}

} // verus!
