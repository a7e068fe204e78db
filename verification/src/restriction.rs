//! Constraints deduced from one round of feedback on a guess.

use vstd::prelude::*;

verus! {

use crate::WORD_LEN;
use crate::words::contains_char;
use vstd::string::StrSliceExecFns;

/// One deduced fact about the answer word.
///
/// - `Here(c, i)`: the answer has letter `c` at position `i`.
/// - `NotHere(c, i)`: the answer contains `c` somewhere, but not at `i`.
/// - `NoMore(c)`: the answer contains no occurrence of `c` beyond those
///   already pinned by `Here`/`NotHere` constraints on `c` in the same batch.
#[derive(Debug, Clone, Copy, PartialEq, Eq, Structural)]
pub enum Restriction {
    Here(char, usize),
    NotHere(char, usize),
    NoMore(char),
}

/// Rank of a constraint kind: `Here` sorts before `NotHere` before `NoMore`.
pub open spec fn kind_rank(r: Restriction) -> int {
    match r {
        Restriction::Here(_, _) => 0,
        Restriction::NotHere(_, _) => 1,
        Restriction::NoMore(_) => 2,
    }
}

/// Secondary sort key: the position for `Here`/`NotHere`, the letter for
/// `NoMore`. Letters of `Here`/`NotHere` do not take part in the order.
pub open spec fn sub_key(r: Restriction) -> int {
    match r {
        Restriction::Here(_, i) => i as int,
        Restriction::NotHere(_, i) => i as int,
        Restriction::NoMore(c) => c as int,
    }
}

/// The (total, non-strict) order used to canonicalize a constraint batch.
pub open spec fn rle(a: Restriction, b: Restriction) -> bool {
    kind_rank(a) < kind_rank(b) || (kind_rank(a) == kind_rank(b) && sub_key(a) <= sub_key(b))
}

impl Restriction {
    /// The position this constraint fits in the canonical order, relative
    /// to `other`; constraints with equal keys compare as `Equal`.
    pub fn cmp(&self, other: &Self) -> (r: core::cmp::Ordering)
        ensures
            r == core::cmp::Ordering::Less <==> (rle(*self, *other) && !rle(*other, *self)),
            r == core::cmp::Ordering::Greater <==> (rle(*other, *self) && !rle(*self, *other)),
            r == core::cmp::Ordering::Equal <==> (rle(*self, *other) && rle(*other, *self)),
    {
        let ka = self.kind_rank_ex();
        let kb = other.kind_rank_ex();
        if ka < kb {
            core::cmp::Ordering::Less
        } else if ka > kb {
            core::cmp::Ordering::Greater
        } else {
            let sa = self.sub_key_ex();
            let sb = other.sub_key_ex();
            if sa < sb {
                core::cmp::Ordering::Less
            } else if sa > sb {
                core::cmp::Ordering::Greater
            } else {
                core::cmp::Ordering::Equal
            }
        }
    }

    /// Same comparison, always defined.
    pub fn partial_cmp(&self, other: &Self) -> (r: Option<core::cmp::Ordering>)
        ensures
            r == Some(self.cmp_spec_of(*other)),
    {
        Some(self.cmp(other))
    }

    /// What `cmp` returns, as a spec-level value.
    pub open spec fn cmp_spec_of(self, other: Self) -> core::cmp::Ordering {
        if rle(self, other) && !rle(other, self) {
            core::cmp::Ordering::Less
        } else if rle(other, self) && !rle(self, other) {
            core::cmp::Ordering::Greater
        } else {
            core::cmp::Ordering::Equal
        }
    }

    fn kind_rank_ex(&self) -> (r: u8)
        ensures
            r as int == kind_rank(*self),
    {
        match self {
            Restriction::Here(_, _) => 0,
            Restriction::NotHere(_, _) => 1,
            Restriction::NoMore(_) => 2,
        }
    }

    fn sub_key_ex(&self) -> (r: u64)
        ensures
            r as int == sub_key(*self),
    {
        match self {
            Restriction::Here(_, i) => *i as u64,
            Restriction::NotHere(_, i) => *i as u64,
            Restriction::NoMore(c) => *c as u64,
        }
    }

    /// A constraint is well formed when its position lies inside the word.
    pub open spec fn wf(self) -> bool {
        match self {
            Restriction::Here(_, i) => i < WORD_LEN,
            Restriction::NotHere(_, i) => i < WORD_LEN,
            Restriction::NoMore(_) => true,
        }
    }
}

/// The error a round of malformed feedback produces: wrong length, or a
/// symbol outside `{'0', '1', '2'}`.
#[derive(Debug, Clone, Copy, PartialEq, Eq, Structural)]
pub enum SolverError {
    InvalidFeedback,
}

/// A batch sorted in the canonical order: non-decreasing under `rle`.
pub open spec fn sorted_batch(s: Seq<Restriction>) -> bool {
    forall|i: int, j: int| 0 <= i <= j < s.len() ==> rle(s[i], s[j])
}

/// Where `x` lands when inserted into `s` from the right: after every
/// element `rle`-below or equal to it.
pub open spec fn insert_sorted(s: Seq<Restriction>, x: Restriction) -> Seq<Restriction>
    decreases s.len(),
{
    if s.len() == 0 {
        seq![x]
    } else if rle(s.last(), x) {
        s.push(x)
    } else {
        insert_sorted(s.drop_last(), x).push(s.last())
    }
}

/// Stable insertion sort of a batch under the canonical order `rle`.
pub open spec fn sort_restrictions(s: Seq<Restriction>) -> Seq<Restriction>
    decreases s.len(),
{
    if s.len() == 0 {
        Seq::empty()
    } else {
        insert_sorted(sort_restrictions(s.drop_last()), s.last())
    }
}

proof fn lemma_push_contains(s: Seq<Restriction>, x: Restriction, y: Restriction)
    ensures
        s.push(x).contains(y) <==> (s.contains(y) || y == x),
{
    if s.contains(y) {
        let k = choose|k: int| 0 <= k < s.len() && s[k] == y;
        assert(s.push(x)[k] == y);
    }
    assert(s.push(x)[s.len() as int] == x);
    if s.push(x).contains(y) {
        let k = choose|k: int| 0 <= k < s.push(x).len() && s.push(x)[k] == y;
        if k < s.len() {
            assert(s[k] == y);
        }
    }
}

/// Inserting an element keeps every other element and adds the new one.
proof fn lemma_insert_sorted_membership(s: Seq<Restriction>, x: Restriction)
    ensures
        insert_sorted(s, x).len() == s.len() + 1,
        forall|y: Restriction| #[trigger]
            insert_sorted(s, x).contains(y) <==> (s.contains(y) || y == x),
    decreases s.len(),
{
    let ins = insert_sorted(s, x);
    if s.len() == 0 {
        assert forall|y: Restriction| #[trigger]
            ins.contains(y) <==> (s.contains(y) || y == x) by {
            assert(ins[0] == x);
            if ins.contains(y) {
                let k = choose|k: int| 0 <= k < ins.len() && ins[k] == y;
                assert(k == 0);
            }
        }
    } else if rle(s.last(), x) {
        assert forall|y: Restriction| #[trigger]
            ins.contains(y) <==> (s.contains(y) || y == x) by {
            lemma_push_contains(s, x, y);
        }
    } else {
        let dl = s.drop_last();
        lemma_insert_sorted_membership(dl, x);
        assert forall|y: Restriction| #[trigger]
            ins.contains(y) <==> (s.contains(y) || y == x) by {
            lemma_push_contains(insert_sorted(dl, x), s.last(), y);
            lemma_push_contains(dl, s.last(), y);
            assert(dl.push(s.last()) =~= s);
        }
    }
}

/// Inserting into a sorted batch keeps it sorted.
proof fn lemma_insert_sorted_sorted(s: Seq<Restriction>, x: Restriction)
    requires
        sorted_batch(s),
    ensures
        sorted_batch(insert_sorted(s, x)),
    decreases s.len(),
{
    let ins = insert_sorted(s, x);
    if s.len() == 0 {
    } else if rle(s.last(), x) {
        assert forall|i: int, j: int| 0 <= i <= j < ins.len() implies rle(ins[i], ins[j]) by {
            if j == ins.len() - 1 {
                if i < s.len() {
                    assert(rle(s[i], s.last()));
                }
            }
        }
    } else {
        let dl = s.drop_last();
        assert(sorted_batch(dl));
        lemma_insert_sorted_sorted(dl, x);
        lemma_insert_sorted_membership(dl, x);
        let prev = insert_sorted(dl, x);
        assert forall|i: int, j: int| 0 <= i <= j < ins.len() implies rle(ins[i], ins[j]) by {
            if j == ins.len() - 1 {
                assert(ins[j] == s.last());
                if i < prev.len() {
                    assert(ins[i] == prev[i]);
                    assert(prev.contains(prev[i]));
                    if dl.contains(prev[i]) {
                        let k = choose|k: int| 0 <= k < dl.len() && dl[k] == prev[i];
                        assert(rle(s[k], s.last()));
                    } else {
                        assert(prev[i] == x);
                        assert(rle(x, s.last()));
                    }
                }
            } else {
                assert(rle(prev[i], prev[j]));
            }
        }
    }
}

/// `insert_sorted` places `x` at the split position `q`.
proof fn lemma_insert_sorted_at(s: Seq<Restriction>, x: Restriction, q: int)
    requires
        0 <= q <= s.len(),
        forall|j: int| 0 <= j < q ==> rle(#[trigger] s[j], x),
        forall|j: int| q <= j < s.len() ==> !rle(#[trigger] s[j], x),
    ensures
        insert_sorted(s, x) == s.subrange(0, q).push(x) + s.subrange(q, s.len() as int),
    decreases s.len(),
{
    if s.len() == 0 {
        assert(insert_sorted(s, x) =~= s.subrange(0, q).push(x) + s.subrange(q, s.len() as int));
    } else if q == s.len() {
        assert(rle(s.last(), x));
        assert(s.push(x) =~= s.subrange(0, q).push(x) + s.subrange(q, s.len() as int));
    } else {
        assert(!rle(s.last(), x));
        let dl = s.drop_last();
        lemma_insert_sorted_at(dl, x, q);
        assert(insert_sorted(s, x) == (dl.subrange(0, q).push(x) + dl.subrange(
            q,
            dl.len() as int,
        )).push(s.last()));
        assert((dl.subrange(0, q).push(x) + dl.subrange(q, dl.len() as int)).push(s.last()) =~= s
            .subrange(0, q).push(x) + s.subrange(q, s.len() as int));
    }
}

/// Sorting reorders the batch without adding or removing constraints.
pub proof fn lemma_sort_membership(s: Seq<Restriction>)
    ensures
        sort_restrictions(s).len() == s.len(),
        forall|y: Restriction| #[trigger] sort_restrictions(s).contains(y) <==> s.contains(y),
    decreases s.len(),
{
    if s.len() > 0 {
        let dl = s.drop_last();
        lemma_sort_membership(dl);
        lemma_insert_sorted_membership(sort_restrictions(dl), s.last());
        assert forall|y: Restriction| #[trigger]
            sort_restrictions(s).contains(y) <==> s.contains(y) by {
            lemma_push_contains(dl, s.last(), y);
            assert(dl.push(s.last()) =~= s);
        }
    }
}

fn rle_ex(a: &Restriction, b: &Restriction) -> (r: bool)
    ensures
        r == rle(*a, *b),
{
    let ka = a.kind_rank_ex();
    let kb = b.kind_rank_ex();
    ka < kb || (ka == kb && a.sub_key_ex() <= b.sub_key_ex())
}

fn insert_one(out: &mut Vec<Restriction>, x: Restriction)
    requires
        sorted_batch(old(out)@),
    ensures
        final(out)@ == insert_sorted(old(out)@, x),
        sorted_batch(final(out)@),
{
    let ghost orig = out@;
    let mut q = out.len();
    while q > 0 && !rle_ex(&out[q - 1], &x)
        invariant
            out@ == orig,
            q <= out@.len(),
            forall|j: int| q <= j < out@.len() ==> !rle(#[trigger] out@[j], x),
        decreases q,
    {
        q -= 1;
    }
    proof {
        assert forall|j: int| 0 <= j < q implies rle(#[trigger] orig[j], x) by {
            assert(rle(orig[j], orig[q - 1]));
            assert(rle(orig[q - 1], x));
        }
        lemma_insert_sorted_at(orig, x, q as int);
        lemma_insert_sorted_sorted(orig, x);
    }
    out.insert(q, x);
    assert(out@ =~= insert_sorted(orig, x));
}

/// A recognized feedback symbol: absent, present elsewhere, or correct.
pub open spec fn valid_code(d: char) -> bool {
    d == '0' || d == '1' || d == '2'
}

/// Feedback a round may legally carry: a guess of `WORD_LEN` letters and
/// one recognized symbol per position.
pub open spec fn valid_feedback(g: Seq<char>, f: Seq<char>) -> bool {
    &&& g.len() == WORD_LEN
    &&& f.len() == WORD_LEN
    &&& forall|i: int| 0 <= i < f.len() ==> valid_code(#[trigger] f[i])
}

/// The constraint one position of feedback stands for.
pub open spec fn code_restriction(c: char, d: char, i: int) -> Restriction {
    if d == '2' {
        Restriction::Here(c, i as usize)
    } else if d == '1' {
        Restriction::NotHere(c, i as usize)
    } else {
        Restriction::NoMore(c)
    }
}

/// The constraint batch one round of feedback stands for, position by
/// position, before canonical ordering.
pub open spec fn raw_restrictions(g: Seq<char>, f: Seq<char>) -> Seq<Restriction> {
    Seq::new(g.len(), |i: int| code_restriction(g[i], f[i], i))
}

/// Turns one round of feedback into the canonical constraint batch.
///
/// Returns `InvalidFeedback` exactly when the guess or the feedback string
/// does not have `WORD_LEN` characters, or some feedback symbol is not one
/// of `'0'` (absent), `'1'` (present elsewhere), `'2'` (correct).
pub fn parse_feedback(guess: &str, feedback: &str) -> (r: Result<Vec<Restriction>, SolverError>)
    ensures
        r is Ok <==> valid_feedback(guess@, feedback@),
        r matches Ok(v) ==> v@ == sort_restrictions(raw_restrictions(guess@, feedback@)),
        r matches Ok(v) ==> forall|k: int| 0 <= k < v@.len() ==> (#[trigger] v@[k]).wf(),
        r is Err ==> r->Err_0 == SolverError::InvalidFeedback,
{
    if guess.unicode_len() != WORD_LEN || feedback.unicode_len() != WORD_LEN {
        return Err(SolverError::InvalidFeedback);
    }
    let mut raw: Vec<Restriction> = Vec::new();
    let mut i: usize = 0;
    while i < WORD_LEN
        invariant
            guess@.len() == WORD_LEN,
            feedback@.len() == WORD_LEN,
            i <= WORD_LEN,
            raw@ == raw_restrictions(guess@, feedback@).take(i as int),
            forall|j: int| 0 <= j < i ==> valid_code(#[trigger] feedback@[j]),
        decreases WORD_LEN - i,
    {
        let c = guess.get_char(i);
        let d = feedback.get_char(i);
        if !(d == '0' || d == '1' || d == '2') {
            assert(!valid_code(feedback@[i as int]));
            return Err(SolverError::InvalidFeedback);
        }
        let rest = if d == '2' {
            Restriction::Here(c, i)
        } else if d == '1' {
            Restriction::NotHere(c, i)
        } else {
            Restriction::NoMore(c)
        };
        raw.push(rest);
        proof {
            assert(raw@ =~= raw_restrictions(guess@, feedback@).take(i + 1 as int));
        }
        i += 1;
    }
    proof {
        let all = raw_restrictions(guess@, feedback@);
        assert(all.take(WORD_LEN as int) =~= all);
    }
    let out = sort_batch(raw.as_slice());
    proof {
        lemma_sort_membership(raw@);
        assert forall|k: int| 0 <= k < out@.len() implies (#[trigger] out@[k]).wf() by {
            assert(out@.contains(out@[k]));
            let j = choose|j: int| 0 <= j < raw@.len() && raw@[j] == out@[k];
            assert(raw@[j] == code_restriction(guess@[j], feedback@[j], j));
        }
    }
    Ok(out)
}

/// The constraint that comparing one position of a guess against the true
/// answer yields: correct letter, letter present elsewhere, or absent.
pub open spec fn feedback_restriction(g: Seq<char>, a: Seq<char>, i: int) -> Restriction {
    if a[i] == g[i] {
        Restriction::Here(g[i], i as usize)
    } else if a.contains(g[i]) {
        Restriction::NotHere(g[i], i as usize)
    } else {
        Restriction::NoMore(g[i])
    }
}

/// The constraint batch that comparing a whole guess against the true
/// answer yields, in position order.
pub open spec fn restrictions_from(g: Seq<char>, a: Seq<char>) -> Seq<Restriction> {
    Seq::new(g.len(), |i: int| feedback_restriction(g, a, i))
}

/// Compares a guess against the true answer and produces the constraint
/// batch that honest feedback on that guess would yield.
pub fn derive_restrictions(guess: &str, answer: &str) -> (r: Vec<Restriction>)
    requires
        guess@.len() == WORD_LEN,
        answer@.len() == WORD_LEN,
    ensures
        r@ == restrictions_from(guess@, answer@),
{
    let mut out: Vec<Restriction> = Vec::new();
    let mut i: usize = 0;
    while i < WORD_LEN
        invariant
            guess@.len() == WORD_LEN,
            answer@.len() == WORD_LEN,
            i <= WORD_LEN,
            out@ == restrictions_from(guess@, answer@).take(i as int),
        decreases WORD_LEN - i,
    {
        let c = guess.get_char(i);
        let rest = if answer.get_char(i) == c {
            Restriction::Here(c, i)
        } else if contains_char(answer, c) {
            Restriction::NotHere(c, i)
        } else {
            Restriction::NoMore(c)
        };
        out.push(rest);
        proof {
            assert(out@ =~= restrictions_from(guess@, answer@).take(i + 1 as int));
        }
        i += 1;
    }
    proof {
        assert(restrictions_from(guess@, answer@).take(WORD_LEN as int) =~= restrictions_from(
            guess@,
            answer@,
        ));
    }
    out
}

/// Canonicalizes a constraint batch: `Here` entries first ordered by
/// position, then `NotHere` by position, then `NoMore` by letter. Equal
/// keys keep their relative order, so the result is deterministic.
pub fn sort_batch(input: &[Restriction]) -> (r: Vec<Restriction>)
    ensures
        r@ == sort_restrictions(input@),
        sorted_batch(r@),
{
    let n = input.len();
    let mut out: Vec<Restriction> = Vec::new();
    let mut i: usize = 0;
    while i < n
        invariant
            n == input@.len(),
            i <= n,
            out@ == sort_restrictions(input@.take(i as int)),
            sorted_batch(out@),
        decreases n - i,
    {
        insert_one(&mut out, input[i]);
        proof {
            assert(input@.take(i + 1 as int).drop_last() =~= input@.take(i as int));
            assert(input@.take(i + 1 as int).last() == input@[i as int]);
        }
        i += 1;
    }
    proof {
        assert(input@.take(n as int) =~= input@);
    }
    out
}

} // verus!
