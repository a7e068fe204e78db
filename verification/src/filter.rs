//! The candidate filter: prunes a pool of words against a constraint batch.

use vstd::prelude::*;
use vstd::string::StrSliceExecFns;

verus! {

use crate::WORD_LEN;
use crate::restriction::Restriction;
use crate::restriction::lemma_sort_membership;
use crate::restriction::restrictions_from;
use crate::restriction::sort_restrictions;
use crate::words::contains_char;

/// Whether the constraint `r` pins an occurrence of the letter `c`
/// (a `Here` or `NotHere` constraint on that letter).
pub open spec fn pins(r: Restriction, c: char) -> bool {
    match r {
        Restriction::Here(l, _) => l == c,
        Restriction::NotHere(l, _) => l == c,
        Restriction::NoMore(_) => false,
    }
}

/// Whether some constraint in the batch pins an occurrence of `c`.
pub open spec fn pinned(rs: Seq<Restriction>, c: char) -> bool {
    exists|k: int| 0 <= k < rs.len() && pins(rs[k], c)
}

/// Whether the word `w` satisfies the single constraint `r`, evaluated
/// within the batch `rs` (a `NoMore` letter is excused when the same batch
/// pins an occurrence of that letter elsewhere, which models repeated
/// letters in a guess).
pub open spec fn sat_one(w: Seq<char>, rs: Seq<Restriction>, r: Restriction) -> bool {
    match r {
        Restriction::Here(c, i) => w[i as int] == c,
        Restriction::NotHere(c, i) => w[i as int] != c && w.contains(c),
        Restriction::NoMore(c) => w.contains(c) ==> pinned(rs, c),
    }
}

/// Whether the word `w` satisfies every constraint of the batch `rs`.
/// The definition is order-independent: it quantifies over membership only.
pub open spec fn sat(w: Seq<char>, rs: Seq<Restriction>) -> bool {
    forall|k: int| 0 <= k < rs.len() ==> sat_one(w, rs, #[trigger] rs[k])
}

/// The subsequence of `pool` whose words satisfy every constraint of `rs`,
/// in the original order.
pub open spec fn filter_words(pool: Seq<Seq<char>>, rs: Seq<Restriction>) -> Seq<Seq<char>>
    decreases pool.len(),
{
    if pool.len() == 0 {
        Seq::empty()
    } else {
        let rest = filter_words(pool.drop_last(), rs);
        if sat(pool.last(), rs) {
            rest.push(pool.last())
        } else {
            rest
        }
    }
}

/// A word the filter can evaluate: exactly `WORD_LEN` letters.
pub open spec fn wf_word(w: Seq<char>) -> bool {
    w.len() == WORD_LEN
}

/// Every word of the pool has exactly `WORD_LEN` letters.
pub open spec fn wf_words(pool: Seq<Seq<char>>) -> bool {
    forall|i: int| 0 <= i < pool.len() ==> wf_word(#[trigger] pool[i])
}

/// Every constraint of the batch points inside the word.
pub open spec fn wf_batch(rs: Seq<Restriction>) -> bool {
    forall|k: int| 0 <= k < rs.len() ==> (#[trigger] rs[k]).wf()
}

/// Whether some constraint of `restrictions` pins an occurrence of `c`.
fn pinned_ex(restrictions: &[Restriction], c: char) -> (r: bool)
    ensures
        r == pinned(restrictions@, c),
{
    let n = restrictions.len();
    let mut k: usize = 0;
    while k < n
        invariant
            n == restrictions@.len(),
            k <= n,
            forall|j: int| 0 <= j < k ==> !pins(restrictions@[j], c),
        decreases n - k,
    {
        let found = match restrictions[k] {
            Restriction::Here(l, _) => l == c,
            Restriction::NotHere(l, _) => l == c,
            Restriction::NoMore(_) => false,
        };
        if found {
            assert(pins(restrictions@[k as int], c));
            return true;
        }
        k += 1;
    }
    false
}

/// Whether the word respects every constraint of the batch.
pub fn respects(word: &str, restrictions: &[Restriction]) -> (r: bool)
    requires
        wf_word(word@),
        wf_batch(restrictions@),
    ensures
        r == sat(word@, restrictions@),
{
    let n = restrictions.len();
    let mut k: usize = 0;
    while k < n
        invariant
            wf_word(word@),
            wf_batch(restrictions@),
            n == restrictions@.len(),
            k <= n,
            forall|j: int| 0 <= j < k ==> sat_one(word@, restrictions@, restrictions@[j]),
        decreases n - k,
    {
        let holds = match restrictions[k] {
            Restriction::Here(c, i) => word.get_char(i) == c,
            Restriction::NotHere(c, i) => word.get_char(i) != c && contains_char(word, c),
            Restriction::NoMore(c) => !contains_char(word, c) || pinned_ex(restrictions, c),
        };
        if !holds {
            assert(!sat_one(word@, restrictions@, restrictions@[k as int]));
            return false;
        }
        assert(sat_one(word@, restrictions@, restrictions@[k as int]));
        k += 1;
    }
    true
}

/// Removes from `possibilities` every word that violates some constraint,
/// keeping the surviving words in their original order.
pub fn update_possibilities(possibilities: &mut Vec<String>, restrictions: &[Restriction])
    requires
        wf_words(old(possibilities).deep_view()),
        wf_batch(restrictions@),
    ensures
        final(possibilities).deep_view() == filter_words(
            old(possibilities).deep_view(),
            restrictions@,
        ),
        wf_words(final(possibilities).deep_view()),
{
    let ghost orig: Seq<Seq<char>> = possibilities.deep_view();
    let mut kept: Vec<String> = Vec::new();
    let n = possibilities.len();
    let mut i: usize = 0;
    while i < n
        invariant
            wf_words(orig),
            wf_batch(restrictions@),
            orig == possibilities.deep_view(),
            n == possibilities.len(),
            i <= n,
            kept.deep_view() == filter_words(orig.take(i as int), restrictions@),
            wf_words(kept.deep_view()),
        decreases n - i,
    {
        let ghost prev = kept.deep_view();
        assert(possibilities.deep_view()[i as int] == possibilities@[i as int]@);
        assert(wf_word(orig[i as int]));
        let keep_it = respects(possibilities[i].as_str(), restrictions);
        if keep_it {
            let w = possibilities[i].clone();
            kept.push(w);
            assert(kept.deep_view() =~= prev.push(orig[i as int]));
        }
        proof {
            assert(orig.take(i + 1 as int).drop_last() =~= orig.take(i as int));
            assert(orig.take(i + 1 as int).last() == orig[i as int]);
        }
        i += 1;
    }
    proof {
        assert(orig.take(n as int) =~= orig);
    }
    *possibilities = kept;
}

/// The filtered pool is never longer than the pool it came from.
pub proof fn lemma_filter_shrinks(pool: Seq<Seq<char>>, rs: Seq<Restriction>)
    ensures
        filter_words(pool, rs).len() <= pool.len(),
    decreases pool.len(),
{
    if pool.len() > 0 {
        lemma_filter_shrinks(pool.drop_last(), rs);
    }
}

/// Whether the batch holds a `NoMore` constraint on the letter `c`.
pub open spec fn has_no_more(rs: Seq<Restriction>, c: char) -> bool {
    exists|k: int| 0 <= k < rs.len() && rs[k] == Restriction::NoMore(c)
}

/// Two batches are compatible when neither batch pins a letter that the
/// other marks `NoMore` without that batch pinning it as well. Batches
/// derived from feedback rounds on guesses without shared repeated letters
/// satisfy this; it rules out one batch excusing the other's `NoMore`.
pub open spec fn compatible(c1: Seq<Restriction>, c2: Seq<Restriction>) -> bool {
    &&& forall|c: char| #[trigger] has_no_more(c1, c) && pinned(c2, c) ==> pinned(c1, c)
    &&& forall|c: char| #[trigger] has_no_more(c2, c) && pinned(c1, c) ==> pinned(c2, c)
}

proof fn lemma_pinned_concat(c1: Seq<Restriction>, c2: Seq<Restriction>, c: char)
    ensures
        pinned(c1 + c2, c) <==> (pinned(c1, c) || pinned(c2, c)),
{
    let both = c1 + c2;
    if pinned(c1, c) {
        let k = choose|k: int| 0 <= k < c1.len() && pins(c1[k], c);
        assert(pins(both[k], c));
    }
    if pinned(c2, c) {
        let k = choose|k: int| 0 <= k < c2.len() && pins(c2[k], c);
        assert(pins(both[c1.len() + k], c));
    }
    if pinned(both, c) {
        let k = choose|k: int| 0 <= k < both.len() && pins(both[k], c);
        if k < c1.len() {
            assert(pins(c1[k], c));
        } else {
            assert(pins(c2[k - c1.len()], c));
        }
    }
}

proof fn lemma_sat_concat(w: Seq<char>, c1: Seq<Restriction>, c2: Seq<Restriction>)
    requires
        compatible(c1, c2),
    ensures
        sat(w, c1 + c2) <==> (sat(w, c1) && sat(w, c2)),
{
    let both = c1 + c2;
    if sat(w, both) {
        assert forall|k: int| 0 <= k < c1.len() implies sat_one(w, c1, #[trigger] c1[k]) by {
            assert(both[k] == c1[k]);
            assert(sat_one(w, both, both[k]));
            match c1[k] {
                Restriction::NoMore(c) => {
                    if w.contains(c) {
                        lemma_pinned_concat(c1, c2, c);
                        assert(has_no_more(c1, c));
                    }
                },
                _ => {},
            }
        }
        assert forall|k: int| 0 <= k < c2.len() implies sat_one(w, c2, #[trigger] c2[k]) by {
            assert(both[c1.len() + k] == c2[k]);
            assert(sat_one(w, both, both[c1.len() + k]));
            match c2[k] {
                Restriction::NoMore(c) => {
                    if w.contains(c) {
                        lemma_pinned_concat(c1, c2, c);
                        assert(has_no_more(c2, c));
                    }
                },
                _ => {},
            }
        }
        assert(sat(w, c1));
        assert(sat(w, c2));
    }
    if sat(w, c1) && sat(w, c2) {
        assert forall|k: int| 0 <= k < both.len() implies sat_one(w, both, #[trigger] both[k]) by {
            if k < c1.len() {
                assert(both[k] == c1[k]);
                assert(sat_one(w, c1, c1[k]));
                match both[k] {
                    Restriction::NoMore(c) => {
                        if w.contains(c) {
                            lemma_pinned_concat(c1, c2, c);
                        }
                    },
                    _ => {},
                }
            } else {
                assert(both[k] == c2[k - c1.len()]);
                assert(sat_one(w, c2, c2[k - c1.len()]));
                match both[k] {
                    Restriction::NoMore(c) => {
                        if w.contains(c) {
                            lemma_pinned_concat(c1, c2, c);
                        }
                    },
                    _ => {},
                }
            }
        }
        assert(sat(w, both));
    }
}

/// Filtering by one batch and then by another equals filtering once by the
/// combined batch, whenever the two batches are compatible: conjunction of
/// constraints is order-independent across rounds.
pub proof fn lemma_filter_union(pool: Seq<Seq<char>>, c1: Seq<Restriction>, c2: Seq<Restriction>)
    requires
        compatible(c1, c2),
    ensures
        filter_words(filter_words(pool, c1), c2) == filter_words(pool, c1 + c2),
    decreases pool.len(),
{
    if pool.len() == 0 {
        assert(filter_words(filter_words(pool, c1), c2) =~= filter_words(pool, c1 + c2));
    } else {
        let p = pool.drop_last();
        let w = pool.last();
        lemma_filter_union(p, c1, c2);
        lemma_sat_concat(w, c1, c2);
        let f1p = filter_words(p, c1);
        if sat(w, c1) {
            assert(filter_words(pool, c1) == f1p.push(w));
            assert(f1p.push(w).drop_last() =~= f1p);
            assert(f1p.push(w).last() == w);
            assert(filter_words(f1p.push(w), c2) == if sat(w, c2) {
                filter_words(f1p, c2).push(w)
            } else {
                filter_words(f1p, c2)
            });
        } else {
            assert(filter_words(pool, c1) == f1p);
        }
    }
}

/// A word of the pool that satisfies the whole batch survives the filter.
pub proof fn lemma_filter_keeps(pool: Seq<Seq<char>>, rs: Seq<Restriction>, i: int)
    requires
        0 <= i < pool.len(),
        sat(pool[i], rs),
    ensures
        filter_words(pool, rs).contains(pool[i]),
    decreases pool.len(),
{
    let out = filter_words(pool, rs);
    let rest = filter_words(pool.drop_last(), rs);
    if i == pool.len() - 1 {
        assert(out[out.len() - 1] == pool[i]);
    } else {
        lemma_filter_keeps(pool.drop_last(), rs, i);
        let k = choose|k: int| 0 <= k < rest.len() && rest[k] == pool.drop_last()[i];
        assert(out[k] == pool[i]);
    }
}

/// Satisfaction depends only on which constraints the batch holds, not on
/// their order or multiplicity.
pub proof fn lemma_sat_batch_members(w: Seq<char>, rs1: Seq<Restriction>, rs2: Seq<Restriction>)
    requires
        forall|y: Restriction|
            #![trigger rs1.contains(y)]
            #![trigger rs2.contains(y)]
            rs1.contains(y) <==> rs2.contains(y),
    ensures
        sat(w, rs1) == sat(w, rs2),
{
    assert forall|c: char| pinned(rs1, c) implies pinned(rs2, c) by {
        let k = choose|k: int| 0 <= k < rs1.len() && pins(rs1[k], c);
        assert(rs1.contains(rs1[k]));
        let j = choose|j: int| 0 <= j < rs2.len() && rs2[j] == rs1[k];
        assert(pins(rs2[j], c));
    }
    assert forall|c: char| pinned(rs2, c) implies pinned(rs1, c) by {
        let k = choose|k: int| 0 <= k < rs2.len() && pins(rs2[k], c);
        assert(rs2.contains(rs2[k]));
        let j = choose|j: int| 0 <= j < rs1.len() && rs1[j] == rs2[k];
        assert(pins(rs1[j], c));
    }
    if sat(w, rs1) {
        assert forall|k: int| 0 <= k < rs2.len() implies sat_one(w, rs2, #[trigger] rs2[k]) by {
            assert(rs2.contains(rs2[k]));
            let j = choose|j: int| 0 <= j < rs1.len() && rs1[j] == rs2[k];
            assert(sat_one(w, rs1, rs1[j]));
        }
    }
    if sat(w, rs2) {
        assert forall|k: int| 0 <= k < rs1.len() implies sat_one(w, rs1, #[trigger] rs1[k]) by {
            assert(rs1.contains(rs1[k]));
            let j = choose|j: int| 0 <= j < rs2.len() && rs2[j] == rs1[k];
            assert(sat_one(w, rs2, rs2[j]));
        }
    }
}

proof fn lemma_filter_batch_members(
    pool: Seq<Seq<char>>,
    rs1: Seq<Restriction>,
    rs2: Seq<Restriction>,
)
    requires
        forall|y: Restriction|
            #![trigger rs1.contains(y)]
            #![trigger rs2.contains(y)]
            rs1.contains(y) <==> rs2.contains(y),
    ensures
        filter_words(pool, rs1) == filter_words(pool, rs2),
    decreases pool.len(),
{
    if pool.len() > 0 {
        lemma_filter_batch_members(pool.drop_last(), rs1, rs2);
        lemma_sat_batch_members(pool.last(), rs1, rs2);
    }
}

/// The canonical ordering of a batch is cosmetic: filtering by the sorted
/// batch equals filtering by the batch as it came.
pub proof fn lemma_sorted_filter_same(pool: Seq<Seq<char>>, rs: Seq<Restriction>)
    ensures
        filter_words(pool, sort_restrictions(rs)) == filter_words(pool, rs),
{
    lemma_sort_membership(rs);
    lemma_filter_batch_members(pool, sort_restrictions(rs), rs);
}

/// The true answer satisfies every constraint honestly derived from
/// comparing any guess against it.
pub proof fn lemma_answer_satisfies(g: Seq<char>, a: Seq<char>)
    requires
        g.len() == WORD_LEN,
        a.len() == WORD_LEN,
    ensures
        sat(a, restrictions_from(g, a)),
{
    let rs = restrictions_from(g, a);
    assert forall|k: int| 0 <= k < rs.len() implies sat_one(a, rs, #[trigger] rs[k]) by {
        assert(rs[k] == crate::restriction::feedback_restriction(g, a, k));
    }
}

/// Soundness of the feedback round trip: if the true answer stands in the
/// pool, it survives filtering by the constraints honestly derived from
/// comparing any guess against it.
pub proof fn lemma_true_answer_survives(pool: Seq<Seq<char>>, g: Seq<char>, a: Seq<char>, i: int)
    requires
        g.len() == WORD_LEN,
        a.len() == WORD_LEN,
        0 <= i < pool.len(),
        pool[i] == a,
    ensures
        filter_words(pool, restrictions_from(g, a)).contains(a),
{
    lemma_answer_satisfies(g, a);
    lemma_filter_keeps(pool, restrictions_from(g, a), i);
}

} // verus!
