//! The rules of Mastermind feedback, stated over symbol sequences, and the
//! executable scorer that both pattern types share.
use vstd::prelude::*;
use vstd::arithmetic::div_mod::{lemma_div_denominator, lemma_fundamental_div_mod, lemma_small_mod};

verus! {

/// Number of positions in a pattern.
pub const SIZE: usize = 4;

/// Number of distinct symbols (colours) a position may hold.
pub const RADIX: usize = 6;

/// Number of distinct patterns: RADIX to the power SIZE.
pub const CARDINALITY: usize = 1296;

/// 1 when `b` holds, 0 otherwise.
#[verifier::opaque]
pub open spec fn one_if(b: bool) -> nat {
    if b {
        1
    } else {
        0
    }
}

/// The smaller of two naturals.
#[verifier::opaque]
pub open spec fn min_nat(a: nat, b: nat) -> nat {
    if a <= b {
        a
    } else {
        b
    }
}

/// The four symbols of the pattern with index `n`, most significant first:
/// the last four digits of `n` written in base six.
pub open spec fn symbols_of(n: nat) -> Seq<u8> {
    seq![(n / 216 % 6) as u8, (n / 36 % 6) as u8, (n / 6 % 6) as u8, (n % 6) as u8]
}

/// The index of four symbols, most significant first:
/// `s0 * 6^3 + s1 * 6^2 + s2 * 6 + s3`.
pub open spec fn index_of(s: Seq<u8>) -> nat {
    (s[0] * 216 + s[1] * 36 + s[2] * 6 + s[3]) as nat
}

/// Four symbols, each below RADIX.
pub open spec fn is_code(s: Seq<u8>) -> bool {
    &&& s.len() == 4
    &&& forall|i: int| 0 <= i < 4 ==> s[i] < 6
}

/// 1 when position `p` of `s` holds symbol `c`, 0 otherwise.
#[verifier::opaque]
pub open spec fn holds_at(s: Seq<u8>, p: int, c: int) -> nat {
    one_if(s[p] == c)
}

/// How many of the four positions of `s` hold symbol `c`.
pub open spec fn occurrences(s: Seq<u8>, c: int) -> nat {
    holds_at(s, 0, c) + holds_at(s, 1, c) + holds_at(s, 2, c) + holds_at(s, 3, c)
}

/// How many positions hold the same symbol in `s` and `g` (black pegs).
pub open spec fn exact_matches(s: Seq<u8>, g: Seq<u8>) -> nat {
    one_if(s[0] == g[0]) + one_if(s[1] == g[1]) + one_if(s[2] == g[2]) + one_if(s[3] == g[3])
}

/// How often symbol `c` can be paired between `s` and `g`: the smaller of
/// its two counts.
pub open spec fn shared(s: Seq<u8>, g: Seq<u8>, c: int) -> nat {
    min_nat(occurrences(s, c), occurrences(g, c))
}

/// How many symbols `s` and `g` have in common as multisets, whatever their
/// positions.
pub open spec fn common_symbols(s: Seq<u8>, g: Seq<u8>) -> nat {
    shared(s, g, 0) + shared(s, g, 1) + shared(s, g, 2) + shared(s, g, 3) + shared(s, g, 4)
        + shared(s, g, 5)
}

/// The feedback for guess `g` against secret `s`: (blacks, whites), where
/// blacks counts the exact matches and whites the further symbols that the
/// two have in common but in other positions.
pub open spec fn feedback(s: Seq<u8>, g: Seq<u8>) -> (nat, nat) {
    (exact_matches(s, g), (common_symbols(s, g) - exact_matches(s, g)) as nat)
}

/// The feedback for the pattern with index `guess` against the pattern with
/// index `secret`.
pub open spec fn feedback_of(secret: nat, guess: nat) -> (nat, nat) {
    feedback(symbols_of(secret), symbols_of(guess))
}

/// Secret positions of symbol `c` that are not yet consumed.
spec fn unconsumed(s: Seq<u8>, used: Seq<bool>, c: int) -> nat {
    one_if(!used[0] && s[0] == c) + one_if(!used[1] && s[1] == c) + one_if(!used[2] && s[2] == c)
        + one_if(!used[3] && s[3] == c)
}

/// Guess positions from `k` on that are not exact matches and hold `c`.
spec fn pending(s: Seq<u8>, g: Seq<u8>, k: int, c: int) -> nat {
    one_if(k <= 0 && s[0] != g[0] && g[0] == c) + one_if(k <= 1 && s[1] != g[1] && g[1] == c)
        + one_if(k <= 2 && s[2] != g[2] && g[2] == c) + one_if(k <= 3 && s[3] != g[3] && g[3]
        == c)
}

/// White pegs that the guess positions from `k` on can still earn.
spec fn potential(s: Seq<u8>, g: Seq<u8>, used: Seq<bool>, k: int) -> nat {
    min_nat(unconsumed(s, used, 0), pending(s, g, k, 0)) + min_nat(
        unconsumed(s, used, 1),
        pending(s, g, k, 1),
    ) + min_nat(unconsumed(s, used, 2), pending(s, g, k, 2)) + min_nat(
        unconsumed(s, used, 3),
        pending(s, g, k, 3),
    ) + min_nat(unconsumed(s, used, 4), pending(s, g, k, 4)) + min_nat(
        unconsumed(s, used, 5),
        pending(s, g, k, 5),
    )
}

/// 1 when position `p` is an exact match of symbol `c`.
#[verifier::opaque]
spec fn exact_at(s: Seq<u8>, g: Seq<u8>, p: int, c: int) -> nat {
    one_if(s[p] == g[p] && s[p] == c)
}

/// Exact matches of symbol `c`.
spec fn exact_of(s: Seq<u8>, g: Seq<u8>, c: int) -> nat {
    exact_at(s, g, 0, c) + exact_at(s, g, 1, c) + exact_at(s, g, 2, c) + exact_at(s, g, 3, c)
}

/// Per symbol, the pairs in common are its exact matches plus the pairs
/// that the remaining positions allow.
proof fn lemma_shared_splits(s: Seq<u8>, g: Seq<u8>, mask: Seq<bool>, c: int)
    requires
        mask.len() == 4,
        forall|p: int| 0 <= p < 4 ==> mask[p] == (s[p] == g[p]),
    ensures
        shared(s, g, c) == exact_of(s, g, c) + min_nat(unconsumed(s, mask, c), pending(s, g, 0, c)),
{
    reveal(one_if);
    reveal(min_nat);
    reveal(exact_at);
    reveal(holds_at);
    assert(occurrences(s, c) == exact_of(s, g, c) + unconsumed(s, mask, c));
    assert(occurrences(g, c) == exact_of(s, g, c) + pending(s, g, 0, c));
}

/// An exact match at position `p` is an exact match of exactly one symbol.
proof fn lemma_exact_at(s: Seq<u8>, g: Seq<u8>, p: int)
    requires
        0 <= s[p] < 6,
    ensures
        one_if(s[p] == g[p]) == exact_at(s, g, p, 0) + exact_at(s, g, p, 1) + exact_at(s, g, p, 2)
            + exact_at(s, g, p, 3) + exact_at(s, g, p, 4) + exact_at(s, g, p, 5),
{
    reveal(one_if);
    reveal(exact_at);
}

/// Counting exact matches symbol by symbol gives all of them.
proof fn lemma_exact_by_symbol(s: Seq<u8>, g: Seq<u8>)
    requires
        is_code(s),
    ensures
        exact_matches(s, g) == exact_of(s, g, 0) + exact_of(s, g, 1) + exact_of(s, g, 2)
            + exact_of(s, g, 3) + exact_of(s, g, 4) + exact_of(s, g, 5),
{
    lemma_exact_at(s, g, 0);
    lemma_exact_at(s, g, 1);
    lemma_exact_at(s, g, 2);
    lemma_exact_at(s, g, 3);
}

/// Taking the exact matches out of both sides first leaves the symbols in
/// common to be paired among the remaining positions.
proof fn lemma_common_splits(s: Seq<u8>, g: Seq<u8>, mask: Seq<bool>)
    requires
        is_code(s),
        is_code(g),
        mask.len() == 4,
        forall|p: int| 0 <= p < 4 ==> mask[p] == (s[p] == g[p]),
    ensures
        common_symbols(s, g) == exact_matches(s, g) + potential(s, g, mask, 0),
{
    lemma_exact_by_symbol(s, g);
    lemma_shared_splits(s, g, mask, 0);
    lemma_shared_splits(s, g, mask, 1);
    lemma_shared_splits(s, g, mask, 2);
    lemma_shared_splits(s, g, mask, 3);
    lemma_shared_splits(s, g, mask, 4);
    lemma_shared_splits(s, g, mask, 5);
}

/// Each position holds exactly one of the RADIX symbols.
proof fn lemma_one_symbol_at(s: Seq<u8>, p: int)
    requires
        0 <= s[p] < 6,
    ensures
        holds_at(s, p, 0) + holds_at(s, p, 1) + holds_at(s, p, 2) + holds_at(s, p, 3) + holds_at(
            s,
            p,
            4,
        ) + holds_at(s, p, 5) == 1,
{
    reveal(one_if);
    reveal(holds_at);
}

/// Counted symbol by symbol, a code has four symbols.
proof fn lemma_occurrences_total(s: Seq<u8>)
    requires
        0 <= s[0] < 6,
        0 <= s[1] < 6,
        0 <= s[2] < 6,
        0 <= s[3] < 6,
    ensures
        occurrences(s, 0) + occurrences(s, 1) + occurrences(s, 2) + occurrences(s, 3) + occurrences(
            s,
            4,
        ) + occurrences(s, 5) == 4,
{
    lemma_one_symbol_at(s, 0);
    lemma_one_symbol_at(s, 1);
    lemma_one_symbol_at(s, 2);
    lemma_one_symbol_at(s, 3);
}

/// Two codes have at most four symbols in common.
proof fn lemma_common_at_most_four(s: Seq<u8>, g: Seq<u8>)
    requires
        is_code(s),
    ensures
        common_symbols(s, g) <= 4,
{
    assert(0 <= s[0] < 6 && 0 <= s[1] < 6 && 0 <= s[2] < 6 && 0 <= s[3] < 6);
    lemma_occurrences_total(s);
    assert forall|c: int| #[trigger] shared(s, g, c) <= occurrences(s, c) by {
        reveal(min_nat);
    }
}

/// Moving past guess position `k` takes it out of the pending counts.
proof fn lemma_pending_step(s: Seq<u8>, g: Seq<u8>, k: int, c: int)
    requires
        0 <= k < 4,
    ensures
        pending(s, g, k, c) == pending(s, g, k + 1, c) + one_if(s[k] != g[k] && g[k] == c),
{
    reveal(one_if);
}

/// Consuming secret position `j` takes it out of the unconsumed counts.
proof fn lemma_unconsumed_step(s: Seq<u8>, used: Seq<bool>, j: int, c: int)
    requires
        used.len() == 4,
        0 <= j < 4,
        !used[j],
    ensures
        unconsumed(s, used, c) == unconsumed(s, used.update(j, true), c) + one_if(s[j] == c),
{
    reveal(one_if);
}

/// Pairing guess position `k` with secret position `j` lowers the term of
/// their symbol by one and leaves the others.
proof fn lemma_term_pairs(s: Seq<u8>, g: Seq<u8>, used: Seq<bool>, k: int, j: int, c: int)
    requires
        used.len() == 4,
        0 <= k < 4,
        0 <= j < 4,
        s[k] != g[k],
        !used[j],
        s[j] == g[k],
    ensures
        min_nat(unconsumed(s, used, c), pending(s, g, k, c)) == min_nat(
            unconsumed(s, used.update(j, true), c),
            pending(s, g, k + 1, c),
        ) + holds_at(g, k, c),
{
    lemma_pending_step(s, g, k, c);
    lemma_unconsumed_step(s, used, j, c);
    reveal(one_if);
    reveal(min_nat);
    reveal(holds_at);
}

/// A white peg for guess position `k`, paired with secret position `j`,
/// uses up one unit of the potential.
proof fn lemma_potential_pairs(s: Seq<u8>, g: Seq<u8>, used: Seq<bool>, k: int, j: int)
    requires
        used.len() == 4,
        0 <= k < 4,
        0 <= j < 4,
        s[k] != g[k],
        g[k] < 6,
        !used[j],
        s[j] == g[k],
    ensures
        potential(s, g, used.update(j, true), k + 1) + 1 == potential(s, g, used, k),
{
    lemma_term_pairs(s, g, used, k, j, 0);
    lemma_term_pairs(s, g, used, k, j, 1);
    lemma_term_pairs(s, g, used, k, j, 2);
    lemma_term_pairs(s, g, used, k, j, 3);
    lemma_term_pairs(s, g, used, k, j, 4);
    lemma_term_pairs(s, g, used, k, j, 5);
    lemma_one_symbol_at(g, k);
}

/// Guess position `k` earns no white peg when no unconsumed secret position
/// holds its symbol, and the potential stays as it was.
proof fn lemma_potential_unpaired(s: Seq<u8>, g: Seq<u8>, used: Seq<bool>, k: int)
    requires
        used.len() == 4,
        0 <= k < 4,
        forall|q: int| 0 <= q < 4 ==> used[q] || s[q] != g[k],
    ensures
        potential(s, g, used, k + 1) == potential(s, g, used, k),
{
    assert forall|c: int| 0 <= c < 6 implies min_nat(unconsumed(s, used, c), pending(s, g, k, c))
        == min_nat(unconsumed(s, used, c), pending(s, g, k + 1, c)) by {
        lemma_pending_step(s, g, k, c);
        reveal(one_if);
        reveal(min_nat);
    }
}

/// An exact match at guess position `k` leaves the potential as it was.
proof fn lemma_potential_exact(s: Seq<u8>, g: Seq<u8>, used: Seq<bool>, k: int)
    requires
        0 <= k < 4,
        s[k] == g[k],
    ensures
        potential(s, g, used, k + 1) == potential(s, g, used, k),
{
    assert forall|c: int| 0 <= c < 6 implies pending(s, g, k, c) == pending(s, g, k + 1, c) by {
        lemma_pending_step(s, g, k, c);
        reveal(one_if);
    }
}

/// Past the last guess position nothing more can be earned.
proof fn lemma_potential_spent(s: Seq<u8>, g: Seq<u8>, used: Seq<bool>)
    ensures
        potential(s, g, used, 4) == 0,
{
    reveal(one_if);
    reveal(min_nat);
}

/// The scoring of guess `g` against secret `s`, both given as symbols.
/// Exact matches are counted first and consume their positions; then each
/// remaining guess position, left to right, takes the first unconsumed
/// secret position of its symbol, if any, for a white peg.
pub fn tally(s: &[u8; 4], g: &[u8; 4]) -> (r: (u8, u8))
    requires
        is_code(s@),
        is_code(g@),
    ensures
        (r.0 as nat, r.1 as nat) == feedback(s@, g@),
        r.0 + r.1 <= 4,
{
    let mut used: [bool; 4] = [false, false, false, false];
    let mut blacks: u8 = 0;
    let mut pos: usize = 0;
    proof {
        reveal(one_if);
    }
    while pos < 4
        invariant
            0 <= pos <= 4,
            blacks <= pos,
            forall|p: int| 0 <= p < 4 ==> used@[p] == (p < pos && s@[p] == g@[p]),
            blacks == one_if(0 < pos && s@[0] == g@[0]) + one_if(1 < pos && s@[1] == g@[1])
                + one_if(2 < pos && s@[2] == g@[2]) + one_if(3 < pos && s@[3] == g@[3]),
        decreases 4 - pos,
    {
        proof {
            reveal(one_if);
        }
        if s[pos] == g[pos] {
            used[pos] = true;
            blacks = blacks + 1;
        }
        pos = pos + 1;
    }
    proof {
        reveal(one_if);
        assert(blacks == exact_matches(s@, g@));
        lemma_common_splits(s@, g@, used@);
    }
    let ghost target = potential(s@, g@, used@, 0);
    let mut whites: u8 = 0;
    let mut gpos: usize = 0;
    while gpos < 4
        invariant
            0 <= gpos <= 4,
            is_code(s@),
            is_code(g@),
            whites <= gpos,
            used@.len() == 4,
            whites + potential(s@, g@, used@, gpos as int) == target,
        decreases 4 - gpos,
    {
        if s[gpos] == g[gpos] {
            proof {
                lemma_potential_exact(s@, g@, used@, gpos as int);
            }
        } else {
            let ghost before = used@;
            let mut spos: usize = 0;
            let mut found = false;
            while spos < 4 && !found
                invariant
                    0 <= spos <= 4,
                    0 <= gpos < 4,
                    before.len() == 4,
                    !found ==> used@ == before,
                    !found ==> forall|q: int| 0 <= q < spos ==> before[q] || s@[q] != g@[gpos as int],
                    found ==> exists|j: int|
                        0 <= j < 4 && !before[j] && s@[j] == g@[gpos as int] && used@ == before.update(j, true),
                decreases 4 - spos,
            {
                if !used[spos] && s[spos] == g[gpos] {
                    used[spos] = true;
                    found = true;
                }
                spos = spos + 1;
            }
            if found {
                proof {
                    let j = choose|j: int|
                        0 <= j < 4 && !before[j] && s@[j] == g@[gpos as int] && used@ == before.update(j, true);
                    assert(g@[gpos as int] < 6);
                    lemma_potential_pairs(s@, g@, before, gpos as int, j);
                }
                whites = whites + 1;
            } else {
                proof {
                    lemma_potential_unpaired(s@, g@, used@, gpos as int);
                }
            }
        }
        gpos = gpos + 1;
    }
    proof {
        lemma_potential_spent(s@, g@, used@);
        lemma_common_at_most_four(s@, g@);
    }
    (blacks, whites)
}

/// Place value of the digit `e` places from the right: six to the power `e`.
spec fn place_value(e: int) -> nat {
    if e == 0 {
        1
    } else if e == 1 {
        6
    } else if e == 2 {
        36
    } else if e == 3 {
        216
    } else {
        1296
    }
}

/// The symbols of index `n`, most significant first, found by repeated
/// division by RADIX from the least significant position up.
pub fn symbols(n: usize) -> (r: [u8; 4])
    ensures
        r@ == symbols_of(n as nat),
        is_code(r@),
{
    let mut out: [u8; 4] = [0, 0, 0, 0];
    let mut rest: usize = n;
    let mut exp: usize = 0;
    while exp < 4
        invariant
            0 <= exp <= 4,
            rest == n as nat / place_value(exp as int),
            forall|i: int| 3 - exp < i < 4 ==> out@[i] == symbols_of(n as nat)[i],
            forall|i: int| 0 <= i < 4 ==> out@[i] < 6,
        decreases 4 - exp,
    {
        proof {
            lemma_div_denominator(n as int, place_value(exp as int) as int, 6);
            assert(n as nat / 1 == n);
            assert(place_value(exp as int) * 6 == place_value(exp + 1)) by {
                assert(exp == 0 || exp == 1 || exp == 2 || exp == 3);
            }
            assert(rest % 6 == symbols_of(n as nat)[3 - exp]) by {
                assert(exp == 0 || exp == 1 || exp == 2 || exp == 3);
            }
        }
        out[3 - exp] = (rest % 6) as u8;
        rest = rest / 6;
        exp = exp + 1;
    }
    assert(out@ =~= symbols_of(n as nat));
    out
}

/// Decoding an index below CARDINALITY and encoding the symbols again gives
/// the index back.
pub proof fn lemma_index_round_trip(n: nat)
    requires
        n < 1296,
    ensures
        is_code(symbols_of(n)),
        index_of(symbols_of(n)) == n,
{
    let q1 = n / 6;
    let q2 = q1 / 6;
    lemma_fundamental_div_mod(n as int, 6);
    lemma_fundamental_div_mod(q1 as int, 6);
    lemma_fundamental_div_mod(q2 as int, 6);
    lemma_div_denominator(n as int, 6, 6);
    lemma_div_denominator(n as int, 36, 6);
    lemma_small_mod(n / 216, 6);
}

/// Codes whose symbols differ have different indices: encoding is one to one.
proof fn lemma_symbols_determine_index(a: nat, b: nat)
    requires
        a < 1296,
        b < 1296,
        symbols_of(a) == symbols_of(b),
    ensures
        a == b,
{
    lemma_index_round_trip(a);
    lemma_index_round_trip(b);
}

/// A code has one occurrence per position, so none of a symbol outside the
/// alphabet.
proof fn lemma_no_foreign_symbol(s: Seq<u8>, c: int)
    requires
        is_code(s),
        !(0 <= c < 6),
    ensures
        occurrences(s, c) == 0,
{
    reveal(one_if);
    reveal(holds_at);
    assert(s[0] < 6 && s[1] < 6 && s[2] < 6 && s[3] < 6);
}

/// Feedback does not depend on which side is the secret.
pub proof fn lemma_feedback_symmetric(s: Seq<u8>, g: Seq<u8>)
    ensures
        feedback(s, g) == feedback(g, s),
{
    reveal(one_if);
    reveal(min_nat);
    assert(exact_matches(s, g) == exact_matches(g, s));
    assert(common_symbols(s, g) == common_symbols(g, s));
}

/// A pattern scored against itself earns four black pegs and no white one.
pub proof fn lemma_self_score(p: nat)
    ensures
        feedback_of(p, p) == (4nat, 0nat),
{
    let s = symbols_of(p);
    assert(is_code(s));
    reveal(one_if);
    lemma_occurrences_total(s);
    assert forall|c: int| #[trigger] shared(s, s, c) == occurrences(s, c) by {
        reveal(min_nat);
    }
}

/// Four black pegs come from the secret itself and from nothing else.
pub proof fn lemma_win_iff_equal(secret: nat, guess: nat)
    requires
        secret < 1296,
        guess < 1296,
    ensures
        feedback_of(secret, guess).0 == 4 <==> secret == guess,
{
    let s = symbols_of(secret);
    let g = symbols_of(guess);
    lemma_self_score(secret);
    if feedback_of(secret, guess).0 == 4 {
        reveal(one_if);
        assert(s =~= g);
        lemma_symbols_determine_index(secret, guess);
    }
}

/// Black and white pegs together number at most four, and exactly four when
/// the two patterns hold the same symbols the same number of times.
pub proof fn lemma_total_pegs(secret: nat, guess: nat)
    ensures
        feedback_of(secret, guess).0 + feedback_of(secret, guess).1 <= 4,
        feedback_of(secret, guess).0 + feedback_of(secret, guess).1 == 4 <==> forall|c: int|
            occurrences(symbols_of(secret), c) == occurrences(symbols_of(guess), c),
{
    let s = symbols_of(secret);
    let g = symbols_of(guess);
    assert(is_code(s) && is_code(g));
    let mask = seq![s[0] == g[0], s[1] == g[1], s[2] == g[2], s[3] == g[3]];
    lemma_common_splits(s, g, mask);
    lemma_common_at_most_four(s, g);
    lemma_occurrences_total(s);
    lemma_occurrences_total(g);
    assert forall|c: int| #[trigger] shared(s, g, c) <= occurrences(s, c) && shared(s, g, c)
        <= occurrences(g, c) by {
        reveal(min_nat);
    }
    if common_symbols(s, g) == 4 {
        assert forall|c: int| occurrences(s, c) == occurrences(g, c) by {
            if 0 <= c < 6 {
                reveal(min_nat);
                assert(shared(s, g, 0) <= occurrences(s, 0) && shared(s, g, 0) <= occurrences(g, 0));
                assert(shared(s, g, 1) <= occurrences(s, 1) && shared(s, g, 1) <= occurrences(g, 1));
                assert(shared(s, g, 2) <= occurrences(s, 2) && shared(s, g, 2) <= occurrences(g, 2));
                assert(shared(s, g, 3) <= occurrences(s, 3) && shared(s, g, 3) <= occurrences(g, 3));
                assert(shared(s, g, 4) <= occurrences(s, 4) && shared(s, g, 4) <= occurrences(g, 4));
                assert(shared(s, g, 5) <= occurrences(s, 5) && shared(s, g, 5) <= occurrences(g, 5));
                assert(shared(s, g, c) == occurrences(s, c) && shared(s, g, c) == occurrences(g, c));
            } else {
                lemma_no_foreign_symbol(s, c);
                lemma_no_foreign_symbol(g, c);
            }
        }
    }
    if forall|c: int| occurrences(s, c) == occurrences(g, c) {
        assert forall|c: int| #[trigger] shared(s, g, c) == occurrences(s, c) by {
            assert(occurrences(s, c) == occurrences(g, c));
            reveal(min_nat);
        }
    }
}

} // verus!
