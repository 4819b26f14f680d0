//! Mastermind codebreaker using Knuth's five guess algorithm.
//!
//! With four pegs and six colors there are 6^4 = 1296 different patterns
//! (duplicate colors allowed). The algorithm:
//!
//! 1. Create the set S of 1296 possible codes, 1111, 1112, .., 6666.
//! 2. Start with initial guess 1122.
//! 3. Play the guess to get a response of colored and white pegs.
//! 4. If the response is four colored pegs, the game is won.
//! 5. Otherwise, remove from S any code that would not give the same
//!    response if it (the guess) were the code.
//! 6. For each unused code of the 1296, not just those in S, find the
//!    largest number of codes of S that could give the same response to it;
//!    its score is the size of S minus that number, the codes it is sure to
//!    eliminate. Among the codes of highest score, take a member of S if
//!    there is one, and of those the one of least index.
//! 7. Repeat from step 3.
use vstd::prelude::*;
use crate::gameplay::{KeyPegs, Pattern};
use crate::scoring::{
    feedback_of,
    lemma_feedback_symmetric,
    lemma_win_iff_equal,
    symbols_of,
    CARDINALITY,
    SIZE,
};

verus! {

/// How many of the first `n` entries of `bits` are set.
pub open spec fn members_below(bits: Seq<bool>, n: int) -> nat
    decreases n,
{
    if n <= 0 {
        0
    } else {
        members_below(bits, n - 1) + if bits[n - 1] {
            1nat
        } else {
            0nat
        }
    }
}

/// How many entries of `bits` are set.
pub open spec fn member_count(bits: Seq<bool>) -> nat {
    members_below(bits, bits.len() as int)
}

/// Clearing entry `j` removes one member when it was set.
proof fn lemma_members_clear(bits: Seq<bool>, j: int, n: int)
    requires
        0 <= j < bits.len(),
        n <= bits.len(),
    ensures
        members_below(bits.update(j, false), n) + (if 0 <= j < n && bits[j] {
            1nat
        } else {
            0nat
        }) == members_below(bits, n),
    decreases n,
{
    if n > 0 {
        lemma_members_clear(bits, j, n - 1);
    }
}

/// A set entry is counted.
proof fn lemma_member_counted(bits: Seq<bool>, j: int, n: int)
    requires
        0 <= j < n <= bits.len(),
        bits[j],
    ensures
        members_below(bits, n) >= 1,
    decreases n,
{
    if j < n - 1 {
        lemma_member_counted(bits, j, n - 1);
    }
}

/// Every entry below `n` set: `n` members.
proof fn lemma_members_full(bits: Seq<bool>, n: int)
    requires
        0 <= n <= bits.len(),
        forall|i: int| 0 <= i < n ==> bits[i],
    ensures
        members_below(bits, n) == n,
    decreases n,
{
    if n > 0 {
        lemma_members_full(bits, n - 1);
    }
}

/// A subset of the candidate patterns, held as one flag per pattern index.
pub struct PatternSet {
    indexes: Vec<bool>,
    size: usize,
}

impl View for PatternSet {
    type V = Seq<bool>;

    /// Entry `i` is set when the pattern with index `i` is a member.
    closed spec fn view(&self) -> Seq<bool> {
        self.indexes@
    }
}

impl PatternSet {
    /// One flag for each pattern, and the number of members kept with them.
    pub closed spec fn wf(&self) -> bool {
        &&& self.indexes@.len() == CARDINALITY
        &&& self.size == member_count(self.indexes@)
    }

    /// Every pattern.
    pub fn all() -> (r: PatternSet)
        ensures
            r.wf(),
            r@ == Seq::new(CARDINALITY as nat, |i: int| true),
    {
        let mut all_vec: Vec<bool> = Vec::new();
        let mut i: u32 = 0;
        while i < Pattern::cardinality()
            invariant
                i <= CARDINALITY,
                all_vec@ == Seq::new(i as nat, |k: int| true),
            decreases CARDINALITY - i,
        {
            all_vec.push(true);
            i = i + 1;
            assert(all_vec@ =~= Seq::new(i as nat, |k: int| true));
        }
        proof {
            lemma_members_full(all_vec@, CARDINALITY as int);
        }
        PatternSet { indexes: all_vec, size: Pattern::cardinality() as usize }
    }

    /// The number of members.
    pub fn len(&self) -> (r: usize)
        requires
            self.wf(),
        ensures
            r == member_count(self@),
    {
        self.size
    }

    /// Whether `p` is a member.
    pub fn contains(&self, p: &Pattern) -> (r: bool)
        requires
            self.wf(),
        ensures
            r == self@[p@ as int],
    {
        let ix = p.index() as usize;
        self.indexes[ix]
    }

    /// Keeps the members for which `predicate` holds and removes the others.
    pub fn filter_with<P: Fn(&Pattern) -> bool>(&mut self, predicate: &P)
        requires
            old(self).wf(),
            forall|p: Pattern| predicate.requires((&p,)),
        ensures
            final(self).wf(),
            forall|i: int|
                0 <= i < CARDINALITY ==> (#[trigger] final(self)@[i] ==> old(self)@[i]
                    && predicate.ensures((&Pattern::from_index(i as nat),), true)),
            forall|i: int|
                0 <= i < CARDINALITY ==> (old(self)@[i] && !(#[trigger] final(self)@[i])
                    ==> predicate.ensures((&Pattern::from_index(i as nat),), false)),
            member_count(final(self)@) <= member_count(old(self)@),
    {
        let ghost start = self@;
        let mut i: u32 = 0;
        while i < Pattern::cardinality()
            invariant
                self.wf(),
                i <= CARDINALITY,
                start.len() == CARDINALITY,
                forall|p: Pattern| predicate.requires((&p,)),
                forall|j: int|
                    0 <= j < i ==> (#[trigger] self@[j] ==> start[j] && predicate.ensures(
                        (&Pattern::from_index(j as nat),),
                        true,
                    )),
                forall|j: int|
                    0 <= j < i ==> (start[j] && !(#[trigger] self@[j]) ==> predicate.ensures(
                        (&Pattern::from_index(j as nat),),
                        false,
                    )),
                forall|j: int| i <= j < CARDINALITY ==> #[trigger] self@[j] == start[j],
                member_count(self@) <= member_count(start),
            decreases CARDINALITY - i,
        {
            let p = Pattern::ith(i);
            let ix = i as usize;
            if self.indexes[ix] && !predicate(&p) {
                proof {
                    lemma_members_clear(self.indexes@, ix as int, CARDINALITY as int);
                }
                self.indexes.set(ix, false);
                self.size = self.size - 1;
            }
            i = i + 1;
        }
    }

    /// Removes `p`; tells whether it was a member.
    pub fn remove(&mut self, p: &Pattern) -> (r: bool)
        requires
            old(self).wf(),
        ensures
            final(self).wf(),
            r == old(self)@[p@ as int],
            final(self)@ == old(self)@.update(p@ as int, false),
    {
        let ix = p.index() as usize;
        let was = self.indexes[ix];
        proof {
            lemma_members_clear(self.indexes@, ix as int, CARDINALITY as int);
        }
        self.indexes.set(ix, false);
        if was {
            self.size = self.size - 1;
        }
        was
    }
}

/// How many candidates with index below `n` give feedback `f` when scored
/// as guesses against `g`, which is the feedback they would give to `g`.
pub open spec fn partition_below(cands: Seq<bool>, g: nat, f: (nat, nat), n: int) -> nat
    decreases n,
{
    if n <= 0 {
        0
    } else {
        partition_below(cands, g, f, n - 1) + if cands[n - 1] && feedback_of(g, (n - 1) as nat) == f {
            1nat
        } else {
            0nat
        }
    }
}

/// How many candidates answer guess `g` with feedback `f`: the part of the
/// candidates that `f` would leave.
pub open spec fn partition_size(cands: Seq<bool>, g: nat, f: (nat, nat)) -> nat {
    partition_below(cands, g, f, CARDINALITY as int)
}

/// The feedback in place `k` of a table of 25: `k / 5` black pegs and
/// `k % 5` white ones. Every feedback has a place, as it has at most four
/// pegs of each kind.
pub open spec fn feedback_at(k: int) -> (nat, nat) {
    ((k / 5) as nat, (k % 5) as nat)
}

/// The largest part that guess `g` leaves among the feedbacks in places
/// below `k`.
pub open spec fn largest_below(cands: Seq<bool>, g: nat, k: int) -> nat
    decreases k,
{
    if k <= 0 {
        0
    } else {
        let rest = largest_below(cands, g, k - 1);
        let part = partition_size(cands, g, feedback_at(k - 1));
        if part > rest {
            part
        } else {
            rest
        }
    }
}

/// The largest number of candidates that could give one same feedback to
/// guess `g`: what is left after `g` in the worst case.
pub open spec fn worst_case(cands: Seq<bool>, g: nat) -> nat {
    largest_below(cands, g, 25)
}

/// The number of candidates that guess `g` is sure to eliminate.
pub open spec fn elimination_score(cands: Seq<bool>, g: nat) -> int {
    member_count(cands) - worst_case(cands, g)
}

/// Whether the pattern with index `g` was guessed already.
pub open spec fn was_guessed(history: Seq<Pattern>, g: nat) -> bool {
    exists|i: int| 0 <= i < history.len() && (#[trigger] history[i])@ == g
}

/// A pattern not guessed yet whose elimination score no other pattern not
/// guessed yet beats.
pub open spec fn is_best_guess(cands: Seq<bool>, history: Seq<Pattern>, g: nat) -> bool {
    &&& g < CARDINALITY
    &&& !was_guessed(history, g)
    &&& forall|h: nat|
        h < CARDINALITY && !was_guessed(history, h) ==> #[trigger] elimination_score(cands, h)
            <= elimination_score(cands, g)
}

/// Knuth's choice among the best guesses: a candidate when one of them is
/// one, and the one of least index.
pub open spec fn is_next_guess(cands: Seq<bool>, history: Seq<Pattern>, g: nat) -> bool {
    &&& is_best_guess(cands, history, g)
    &&& if exists|h: nat| #[trigger] is_best_guess(cands, history, h) && cands[h as int] {
        &&& cands[g as int]
        &&& forall|h: nat| #[trigger] is_best_guess(cands, history, h) && cands[h as int] ==> g <= h
    } else {
        forall|h: nat| #[trigger] is_best_guess(cands, history, h) ==> g <= h
    }
}

/// The candidates that give `response` to `guess`, as the hidden pattern
/// would.
pub open spec fn retained(cands: Seq<bool>, guess: nat, response: (nat, nat)) -> Seq<bool> {
    Seq::new(cands.len(), |i: int| cands[i] && feedback_of(guess, i as nat) == response)
}

/// `oracle` answers every guess as the codemaker holding the pattern with
/// index `secret` does.
pub open spec fn answers_for<F: Fn(&Pattern) -> KeyPegs>(oracle: F, secret: nat) -> bool {
    &&& secret < CARDINALITY
    &&& forall|p: Pattern| oracle.requires((&p,))
    &&& forall|p: Pattern, r: KeyPegs| #[trigger] oracle.ensures((&p,), r) ==> r@ == feedback_of(secret, p@)
}

/// No part is larger than the candidates.
proof fn lemma_partition_bounded(cands: Seq<bool>, g: nat, f: (nat, nat), n: int)
    ensures
        partition_below(cands, g, f, n) <= members_below(cands, n),
    decreases n,
{
    if n > 0 {
        lemma_partition_bounded(cands, g, f, n - 1);
    }
}

/// The worst case leaves no more than the candidates.
proof fn lemma_largest_bounded(cands: Seq<bool>, g: nat, k: int)
    requires
        cands.len() == CARDINALITY,
    ensures
        largest_below(cands, g, k) <= member_count(cands),
    decreases k,
{
    if k > 0 {
        lemma_largest_bounded(cands, g, k - 1);
        lemma_partition_bounded(cands, g, feedback_at(k - 1), CARDINALITY as int);
    }
}

/// The codebreaker: the candidates still possible, the guesses made, and the
/// codemaker that answers them.
pub struct Solver<F: Fn(&Pattern) -> KeyPegs> {
    codemaker: F,
    pub guessed: Vec<Pattern>,
    pub s: PatternSet,
}

impl<F: Fn(&Pattern) -> KeyPegs> Solver<F> {
    /// The codemaker that answers the guesses.
    pub closed spec fn oracle(&self) -> F {
        self.codemaker
    }

    /// The guesses made so far, in order.
    pub closed spec fn history(&self) -> Seq<Pattern> {
        self.guessed@
    }

    /// The candidate patterns, one flag per index.
    pub closed spec fn candidates(&self) -> Seq<bool> {
        self.s@
    }

    /// The index of the hidden pattern that the codemaker answers for.
    pub open spec fn hidden(&self) -> nat {
        choose|n: nat| answers_for(self.oracle(), n)
    }

    /// The candidate set is well formed, the codemaker answers for some hidden
    /// pattern, and every guess is a pattern index.
    pub closed spec fn wf(&self) -> bool {
        &&& self.s.wf()
        &&& exists|n: nat| answers_for(self.codemaker, n)
        &&& forall|i: int| 0 <= i < self.guessed@.len() ==> (#[trigger] self.guessed@[i])@ < CARDINALITY
    }

    /// The hidden pattern is still a candidate, and no guess but the last one
    /// was the hidden pattern.
    pub closed spec fn on_track(&self) -> bool {
        &&& self.s@[self.hidden() as int]
        &&& forall|i: int| 0 <= i < self.guessed@.len() - 1 ==> (#[trigger] self.guessed@[i])@ != self.hidden()
    }

    /// The codemaker answers as the hidden pattern does.
    proof fn lemma_hidden(&self)
        requires
            self.wf(),
        ensures
            answers_for(self.codemaker, self.hidden()),
    {
    }

    /// Step 1: the set S of 1296 possible codes, 1111, 1112, .., 6666.
    pub fn possible_codes() -> (r: PatternSet)
        ensures
            r.wf(),
            r@ == Seq::new(CARDINALITY as nat, |i: int| true),
    {
        PatternSet::all()
    }

    /// A codebreaker before its first guess, every pattern a candidate.
    /// The codemaker must answer every guess as the holder of one fixed
    /// hidden pattern does.
    pub fn new(codemaker: F) -> (r: Solver<F>)
        requires
            exists|n: nat| answers_for(codemaker, n),
        ensures
            r.wf(),
            r.on_track(),
            r.oracle() == codemaker,
            r.history() == Seq::<Pattern>::empty(),
            r.candidates() == Seq::new(CARDINALITY as nat, |i: int| true),
    {
        let r = Solver { codemaker: codemaker, s: Solver::<F>::possible_codes(), guessed: Vec::new() };
        proof {
            r.lemma_hidden();
        }
        r
    }

    /// Step 2: the first guess, 1122 (index 7).
    pub fn initial_guess() -> (r: Pattern)
        ensures
            r@ == 7,
            symbols_of(r@) == seq![0u8, 0u8, 1u8, 1u8],
    {
        let r = Pattern::from_digits(['1', '1', '2', '2']);
        assert(symbols_of(7) =~= seq![0u8, 0u8, 1u8, 1u8]);
        r
    }

    /// The latest guess.
    pub fn last_guess(&self) -> (r: Pattern)
        requires
            self.history().len() > 0,
        ensures
            r == self.history().last(),
    {
        self.guessed[self.guessed.len() - 1]
    }

    /// Whether `p` was guessed already.
    fn already_guessed(&self, p: &Pattern) -> (r: bool)
        ensures
            r == was_guessed(self.history(), p@),
    {
        let mut i: usize = 0;
        while i < self.guessed.len()
            invariant
                i <= self.guessed@.len(),
                forall|j: int| 0 <= j < i ==> (#[trigger] self.guessed@[j])@ != p@,
            decreases self.guessed@.len() - i,
        {
            proof {
                Pattern::lemma_view_eq(self.guessed@[i as int], *p);
            }
            if self.guessed[i] == *p {
                return true;
            }
            i = i + 1;
        }
        false
    }

    /// The number of candidates that guess `g` is sure to eliminate: the
    /// candidates less the largest part of them that gives one same feedback.
    fn guess_score(&self, g: Pattern) -> (r: usize)
        requires
            self.wf(),
        ensures
            r == elimination_score(self.candidates(), g@),
    {
        let mut dist_by_hits: Vec<usize> = Vec::new();
        while dist_by_hits.len() < 25
            invariant
                dist_by_hits@.len() <= 25,
                forall|k: int| 0 <= k < dist_by_hits@.len() ==> #[trigger] dist_by_hits@[k] == 0,
            decreases 25 - dist_by_hits@.len(),
        {
            dist_by_hits.push(0);
        }
        let mut other: u32 = 0;
        while other < Pattern::cardinality()
            invariant
                self.wf(),
                other <= CARDINALITY,
                dist_by_hits@.len() == 25,
                forall|k: int|
                    0 <= k < 25 ==> #[trigger] dist_by_hits@[k] == partition_below(
                        self.candidates(),
                        g@,
                        feedback_at(k),
                        other as int,
                    ),
                forall|k: int| 0 <= k < 25 ==> #[trigger] dist_by_hits@[k] <= other,
            decreases CARDINALITY - other,
        {
            let p = Pattern::ith(other);
            if self.s.contains(&p) {
                let d = g.score(p);
                let slot = d.slot();
                proof {
                    assert(feedback_at(slot as int) == d@);
                    assert forall|k: int| 0 <= k < 25 && k != slot implies feedback_at(k) != d@ by {
                        if feedback_at(k) == d@ {
                            assert(k == (k / 5) * 5 + k % 5);
                        }
                    }
                }
                dist_by_hits.set(slot, dist_by_hits[slot] + 1);
            }
            other = other + 1;
        }
        let mut highest_hit_count: usize = 0;
        let mut k: usize = 0;
        while k < 25
            invariant
                self.wf(),
                k <= 25,
                dist_by_hits@.len() == 25,
                forall|k: int|
                    0 <= k < 25 ==> #[trigger] dist_by_hits@[k] == partition_size(
                        self.candidates(),
                        g@,
                        feedback_at(k),
                    ),
                highest_hit_count == largest_below(self.candidates(), g@, k as int),
            decreases 25 - k,
        {
            if dist_by_hits[k] > highest_hit_count {
                highest_hit_count = dist_by_hits[k];
            }
            k = k + 1;
        }
        proof {
            lemma_largest_bounded(self.candidates(), g@, 25);
        }
        self.s.len() - highest_hit_count
    }

    /// Step 6: every pattern not guessed yet whose elimination score is the
    /// highest among those, in increasing order of index.
    pub fn best_guesses(&self) -> (r: Vec<Pattern>)
        requires
            self.wf(),
            member_count(self.candidates()) > 0,
        ensures
            forall|i: int|
                0 <= i < r@.len() ==> is_best_guess(self.candidates(), self.history(), (#[trigger] r@[i])@),
            forall|g: nat|
                #[trigger] is_best_guess(self.candidates(), self.history(), g) ==> exists|i: int|
                    0 <= i < r@.len() && (#[trigger] r@[i])@ == g,
            forall|i: int, j: int| 0 <= i < j < r@.len() ==> (#[trigger] r@[i])@ < (#[trigger] r@[j])@,
            (exists|g: nat| g < CARDINALITY && !was_guessed(self.history(), g)) ==> r@.len() > 0,
    {
        let ghost cands = self.candidates();
        let ghost history = self.history();
        let mut high_score: usize = 0;
        let mut candidates: Vec<Pattern> = Vec::new();
        let mut n: u32 = 0;
        while n < Pattern::cardinality()
            invariant
                self.wf(),
                cands == self.candidates(),
                history == self.history(),
                n <= CARDINALITY,
                forall|i: int|
                    0 <= i < candidates@.len() ==> {
                        let c = (#[trigger] candidates@[i])@;
                        &&& c < n
                        &&& !was_guessed(history, c)
                        &&& elimination_score(cands, c) == high_score
                    },
                forall|h: nat|
                    h < n && !was_guessed(history, h) ==> #[trigger] elimination_score(cands, h)
                        <= high_score,
                forall|h: nat|
                    h < n && !was_guessed(history, h) && #[trigger] elimination_score(cands, h)
                        == high_score ==> exists|i: int|
                        0 <= i < candidates@.len() && (#[trigger] candidates@[i])@ == h,
                forall|i: int, j: int|
                    0 <= i < j < candidates@.len() ==> (#[trigger] candidates@[i])@
                        < (#[trigger] candidates@[j])@,
                candidates@.len() == 0 ==> high_score == 0,
                (exists|h: nat| h < n && !was_guessed(history, h)) ==> candidates@.len() > 0,
            decreases CARDINALITY - n,
        {
            let p = Pattern::ith(n);
            if !self.already_guessed(&p) {
                let score = self.guess_score(p);
                if score > high_score {
                    high_score = score;
                    candidates = Vec::new();
                    candidates.push(p);
                    assert forall|h: nat|
                        h < n + 1 && !was_guessed(history, h) && #[trigger] elimination_score(cands, h)
                            == high_score implies exists|i: int|
                        0 <= i < candidates@.len() && (#[trigger] candidates@[i])@ == h by {
                        assert(candidates@[0]@ == h);
                    }
                } else if score == high_score {
                    let ghost before = candidates@;
                    candidates.push(p);
                    assert forall|h: nat|
                        h < n + 1 && !was_guessed(history, h) && #[trigger] elimination_score(cands, h)
                            == high_score implies exists|i: int|
                        0 <= i < candidates@.len() && (#[trigger] candidates@[i])@ == h by {
                        if h < n {
                            let i = choose|i: int| 0 <= i < before.len() && (#[trigger] before[i])@ == h;
                            assert(candidates@[i]@ == h);
                        } else {
                            assert(candidates@[candidates@.len() - 1]@ == h);
                        }
                    }
                }
            }
            n = n + 1;
        }
        assert forall|g: nat| #[trigger] is_best_guess(cands, history, g) implies exists|i: int|
            0 <= i < candidates@.len() && (#[trigger] candidates@[i])@ == g by {
            let first = candidates@[0]@;
            assert(elimination_score(cands, first) <= elimination_score(cands, g));
        }
        candidates
    }

    /// Step 6, the choice: among the best guesses, the first one that is a
    /// candidate, or else the first one.
    pub fn next_guess(&self) -> (r: Pattern)
        requires
            self.wf(),
            member_count(self.candidates()) > 0,
            exists|g: nat| g < CARDINALITY && !was_guessed(self.history(), g),
        ensures
            is_next_guess(self.candidates(), self.history(), r@),
    {
        let best_guesses = self.best_guesses();
        let mut i: usize = 0;
        while i < best_guesses.len()
            invariant
                self.wf(),
                i <= best_guesses@.len(),
                forall|j: int|
                    0 <= j < best_guesses@.len() ==> is_best_guess(
                        self.candidates(),
                        self.history(),
                        (#[trigger] best_guesses@[j])@,
                    ),
                forall|g: nat|
                    #[trigger] is_best_guess(self.candidates(), self.history(), g) ==> exists|j: int|
                        0 <= j < best_guesses@.len() && (#[trigger] best_guesses@[j])@ == g,
                forall|a: int, b: int|
                    0 <= a < b < best_guesses@.len() ==> (#[trigger] best_guesses@[a])@
                        < (#[trigger] best_guesses@[b])@,
                forall|j: int| 0 <= j < i ==> !self.candidates()[(#[trigger] best_guesses@[j])@ as int],
            decreases best_guesses@.len() - i,
        {
            if self.s.contains(&best_guesses[i]) {
                let g = best_guesses[i];
                assert forall|h: nat|
                    #[trigger] is_best_guess(self.candidates(), self.history(), h) && self.candidates()[h as int]
                    implies g@ <= h by {
                    let j = choose|j: int| 0 <= j < best_guesses@.len() && (#[trigger] best_guesses@[j])@ == h;
                    if j > i {
                        assert(best_guesses@[i as int]@ < best_guesses@[j]@);
                    }
                }
                assert(is_best_guess(self.candidates(), self.history(), g@));
                return g;
            }
            i = i + 1;
        }
        let g = best_guesses[0];
        assert forall|h: nat| #[trigger] is_best_guess(self.candidates(), self.history(), h) implies g@ <= h by {
            let j = choose|j: int| 0 <= j < best_guesses@.len() && (#[trigger] best_guesses@[j])@ == h;
            if j > 0 {
                assert(best_guesses@[0]@ < best_guesses@[j]@);
            }
        }
        assert(!exists|h: nat| #[trigger] is_best_guess(self.candidates(), self.history(), h) && self.candidates()[h as int]) by {
            assert forall|h: nat| #[trigger] is_best_guess(self.candidates(), self.history(), h) implies !self.candidates()[h as int] by {
                let j = choose|j: int| 0 <= j < best_guesses@.len() && (#[trigger] best_guesses@[j])@ == h;
            }
        }
        g
    }

    /// Step 5: removes from S every code that would not give `response` to
    /// the latest guess if it were the hidden pattern.
    pub fn retain_same_response(&mut self, response: KeyPegs)
        requires
            old(self).wf(),
            old(self).history().len() > 0,
        ensures
            final(self).wf(),
            final(self).oracle() == old(self).oracle(),
            final(self).history() == old(self).history(),
            final(self).candidates() == retained(
                old(self).candidates(),
                old(self).history().last()@,
                response@,
            ),
            member_count(final(self).candidates()) <= member_count(old(self).candidates()),
    {
        proof {
            self.lemma_hidden();
        }
        let ghost hidden = self.hidden();
        let the_guess = self.last_guess();
        let same_response = |p: &Pattern| -> (r: bool)
            ensures
                r == (feedback_of(the_guess@, p@) == response@),
            {
                let d = the_guess.score(*p);
                proof {
                    KeyPegs::lemma_view_eq(d, response);
                }
                d == response
            };
        let ghost start = self.s@;
        self.s.filter_with(&same_response);
        proof {
            assert forall|i: int| 0 <= i < CARDINALITY implies #[trigger] self.s@[i] == (start[i]
                && feedback_of(the_guess@, i as nat) == response@) by {
                Pattern::lemma_from_index(i as nat);
            }
            assert(self.s@ =~= retained(start, the_guess@, response@));
            assert(answers_for(self.codemaker, hidden));
        }
    }

    /// Steps 2 to 6, one turn: the opening guess when no guess was made yet;
    /// otherwise the codemaker's response to the latest guess, and `None` when
    /// it is four black pegs, or else the candidates that agree with it and
    /// the next guess.
    pub fn play(&mut self) -> (r: Option<Pattern>)
        requires
            old(self).wf(),
            old(self).on_track(),
        ensures
            final(self).wf(),
            final(self).on_track(),
            final(self).oracle() == old(self).oracle(),
            member_count(final(self).candidates()) <= member_count(old(self).candidates()),
            old(self).history().len() == 0 ==> {
                &&& r.is_some()
                &&& r.unwrap()@ == 7
                &&& final(self).history() == seq![r.unwrap()]
                &&& final(self).candidates() == old(self).candidates()
            },
            old(self).history().len() > 0 ==> {
                let last = old(self).history().last()@;
                let response = feedback_of(old(self).hidden(), last);
                if response.0 == SIZE {
                    &&& r.is_none()
                    &&& final(self).history() == old(self).history()
                    &&& final(self).candidates() == old(self).candidates()
                } else {
                    &&& r.is_some()
                    &&& final(self).candidates() == retained(old(self).candidates(), last, response)
                    &&& is_next_guess(final(self).candidates(), old(self).history(), r.unwrap()@)
                    &&& final(self).history() == old(self).history().push(r.unwrap())
                }
            },
    {
        proof {
            self.lemma_hidden();
        }
        if self.guessed.len() == 0 {
            let guess = Solver::<F>::initial_guess();
            let ghost hidden = self.hidden();
            self.guessed.push(guess);
            proof {
                assert(answers_for(self.codemaker, hidden));
                assert(self.guessed@ =~= seq![guess]);
            }
            Some(guess)
        } else {
            let prev = self.last_guess();
            let response = (self.codemaker)(&prev);
            self.advance(response)
        }
    }

    /// Steps 3 to 6 once the codemaker has answered the latest guess with
    /// `response`.
    fn advance(&mut self, response: KeyPegs) -> (r: Option<Pattern>)
        requires
            old(self).wf(),
            old(self).on_track(),
            old(self).history().len() > 0,
            response@ == feedback_of(old(self).hidden(), old(self).history().last()@),
        ensures
            final(self).wf(),
            final(self).on_track(),
            final(self).oracle() == old(self).oracle(),
            member_count(final(self).candidates()) <= member_count(old(self).candidates()),
            response@.0 == SIZE ==> {
                &&& r.is_none()
                &&& final(self).history() == old(self).history()
                &&& final(self).candidates() == old(self).candidates()
            },
            response@.0 != SIZE ==> {
                &&& r.is_some()
                &&& final(self).candidates() == retained(
                    old(self).candidates(),
                    old(self).history().last()@,
                    response@,
                )
                &&& is_next_guess(final(self).candidates(), old(self).history(), r.unwrap()@)
                &&& final(self).history() == old(self).history().push(r.unwrap())
            },
    {
        proof {
            self.lemma_hidden();
        }
        if response.win() {
            None
        } else {
            let prev = self.last_guess();
            let ghost hidden = self.hidden();
            let ghost history = self.history();
            proof {
                lemma_win_iff_equal(hidden, prev@);
                lemma_feedback_symmetric(symbols_of(hidden), symbols_of(prev@));
            }
            self.retain_same_response(response);
            proof {
                assert(self.s@[hidden as int]);
                lemma_member_counted(self.s@, hidden as int, CARDINALITY as int);
                assert(!was_guessed(history, hidden));
            }
            let ng = self.next_guess();
            self.guessed.push(ng);
            proof {
                assert forall|i: int| 0 <= i < self.guessed@.len() - 1 implies (
                #[trigger] self.guessed@[i])@ != hidden by {
                    assert(self.guessed@[i] == history[i]);
                }
                assert forall|i: int| 0 <= i < self.guessed@.len() implies (
                #[trigger] self.guessed@[i])@ < CARDINALITY by {
                    if i < history.len() {
                        assert(self.guessed@[i] == history[i]);
                    }
                }
                assert(answers_for(self.codemaker, hidden));
            }
            Some(ng)
        }
    }

    /// Plays turn after turn, at most `budget` of them, until the hidden
    /// pattern is found; returns the guesses made, in order.
    pub fn guesses(&mut self, budget: usize) -> (r: Vec<Pattern>)
        requires
            old(self).wf(),
            old(self).on_track(),
        ensures
            final(self).wf(),
            final(self).on_track(),
            final(self).oracle() == old(self).oracle(),
            r@.len() <= budget,
            final(self).history() == old(self).history() + r@,
            r@.len() < budget ==> final(self).history().len() > 0 && final(self).history().last()@
                == final(self).hidden(),
    {
        let ghost start = self.history();
        let mut out: Vec<Pattern> = Vec::new();
        let mut won = false;
        while out.len() < budget && !won
            invariant
                self.wf(),
                self.on_track(),
                self.oracle() == old(self).oracle(),
                out@.len() <= budget,
                self.history() == start + out@,
                won ==> self.history().len() > 0 && self.history().last()@ == self.hidden(),
            decreases budget - out@.len(), if won { 0int } else { 1int },
        {
            let ghost before = self.history();
            match self.play() {
                Some(g) => {
                    out.push(g);
                    assert(self.history() =~= start + out@);
                },
                None => {
                    proof {
                        self.lemma_hidden();
                        lemma_win_iff_equal(self.hidden(), before.last()@);
                    }
                    won = true;
                },
            }
        }
        out
    }

} // impl Solver

} // verus!
