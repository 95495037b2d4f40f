//! The scorer: hits and blows of a guess against a secret.
//!
//! A *hit* is a digit that matches the secret in value and position. A
//! *blow* is a guess digit that occurs in the secret at some other
//! position and whose secret position was not itself scored as a hit.

use vstd::prelude::*;

verus! {

/// Position `i` of the guess matches the secret in place.
pub open spec fn hit_at(s: Seq<u8>, g: Seq<u8>, i: int) -> bool {
    s[i] == g[i]
}

/// Digit `d` was scored as a hit at some position among the first `n`.
pub open spec fn matched_upto(s: Seq<u8>, g: Seq<u8>, d: u8, n: int) -> bool {
    exists|j: int| 0 <= j < n && s[j] == d && g[j] == d
}

/// Digit `d` was scored as a hit at its (unique, when `s` is duplicate-free)
/// position in the secret.
pub open spec fn matched_digit(s: Seq<u8>, g: Seq<u8>, d: u8) -> bool {
    matched_upto(s, g, d, s.len() as int)
}

/// Position `i` of the guess scores a blow: the digit is wrong in place,
/// occurs in the secret, and its secret position was not scored as a hit.
pub open spec fn blow_at(s: Seq<u8>, g: Seq<u8>, i: int) -> bool {
    &&& s[i] != g[i]
    &&& s.contains(g[i])
    &&& !matched_digit(s, g, g[i])
}

/// Number of hits among the first `n` positions.
pub open spec fn hits_upto(s: Seq<u8>, g: Seq<u8>, n: int) -> int
    decreases n,
{
    if n <= 0 {
        0
    } else {
        hits_upto(s, g, n - 1) + if hit_at(s, g, n - 1) {
            1int
        } else {
            0int
        }
    }
}

/// Number of blows among the first `n` positions.
pub open spec fn blows_upto(s: Seq<u8>, g: Seq<u8>, n: int) -> int
    decreases n,
{
    if n <= 0 {
        0
    } else {
        blows_upto(s, g, n - 1) + if blow_at(s, g, n - 1) {
            1int
        } else {
            0int
        }
    }
}

/// Hits of the whole guess.
pub open spec fn spec_hits(s: Seq<u8>, g: Seq<u8>) -> int
    recommends
        s.len() == g.len(),
{
    hits_upto(s, g, s.len() as int)
}

/// Blows of the whole guess.
pub open spec fn spec_blows(s: Seq<u8>, g: Seq<u8>) -> int
    recommends
        s.len() == g.len(),
{
    blows_upto(s, g, s.len() as int)
}

/// The partial counts lie between 0 and `n`, and no position is both a hit
/// and a blow, so the two counts together never exceed `n`.
proof fn lemma_counts_bounded(s: Seq<u8>, g: Seq<u8>, n: int)
    requires
        0 <= n,
    ensures
        0 <= hits_upto(s, g, n),
        0 <= blows_upto(s, g, n),
        hits_upto(s, g, n) + blows_upto(s, g, n) <= n,
    decreases n,
{
    if n > 0 {
        lemma_counts_bounded(s, g, n - 1);
    }
}

/// The hit count among the first `n` positions reaches `n` exactly when
/// every one of those positions is a hit.
proof fn lemma_hits_full(s: Seq<u8>, g: Seq<u8>, n: int)
    requires
        0 <= n,
    ensures
        hits_upto(s, g, n) == n <==> forall|i: int| 0 <= i < n ==> hit_at(s, g, i),
    decreases n,
{
    if n > 0 {
        lemma_hits_full(s, g, n - 1);
        lemma_counts_bounded(s, g, n - 1);
    }
}

/// When every position is exactly one of hit or blow, the two counts
/// together cover all `n` positions.
proof fn lemma_counts_cover(s: Seq<u8>, g: Seq<u8>, n: int)
    requires
        0 <= n,
        forall|i: int| 0 <= i < n ==> (#[trigger] hit_at(s, g, i) <==> !blow_at(s, g, i)),
    ensures
        hits_upto(s, g, n) + blows_upto(s, g, n) == n,
    decreases n,
{
    if n > 0 {
        lemma_counts_cover(s, g, n - 1);
    }
}

/// Law: for a duplicate-free secret and a guess of the same length, hits
/// and blows together never exceed the length, and the hit count reaches
/// the length exactly when the guess equals the secret.
pub proof fn lemma_score_bounds(s: Seq<u8>, g: Seq<u8>)
    requires
        s.len() == g.len(),
        s.no_duplicates(),
    ensures
        spec_hits(s, g) + spec_blows(s, g) <= s.len(),
        spec_hits(s, g) == s.len() <==> g == s,
{
    let n = s.len() as int;
    lemma_counts_bounded(s, g, n);
    lemma_hits_full(s, g, n);
    if hits_upto(s, g, n) == n {
        assert forall|i: int| 0 <= i < n implies g[i] == s[i] by {
            assert(hit_at(s, g, i));
        }
        assert(g =~= s);
    }
    if g == s {
        assert(forall|i: int| 0 <= i < n ==> hit_at(s, g, i));
    }
}

/// Law: the scorer is permutation-sensitive. Guessing the reversed secret
/// accounts for every position: each one is a hit or a blow, so the two
/// counts add up to the full length.
pub proof fn lemma_reverse_scores_full(s: Seq<u8>)
    requires
        s.no_duplicates(),
        s.reverse() != s,
    ensures
        spec_hits(s, s.reverse()) + spec_blows(s, s.reverse()) == s.len(),
{
    let g = s.reverse();
    let n = s.len() as int;
    assert forall|i: int| 0 <= i < n implies (#[trigger] hit_at(s, g, i) <==> !blow_at(s, g, i)) by {
        assert(g[i] == s[n - 1 - i]);
        if s[i] == s[n - 1 - i] {
            assert(i == n - 1 - i);
            assert(hit_at(s, g, i));
            assert(!blow_at(s, g, i));
        } else {
            assert(!hit_at(s, g, i));
            assert(s.contains(g[i])) by {
                assert(s[n - 1 - i] == g[i]);
            }
            assert(!matched_digit(s, g, g[i])) by {
                if matched_digit(s, g, g[i]) {
                    let j = choose|j: int| 0 <= j < s.len() && s[j] == g[i] && g[j] == g[i];
                    assert(s[j] == s[n - 1 - i]);
                    assert(j == n - 1 - i);
                    assert(g[j] == s[n - 1 - j]);
                    assert(s[i] == s[n - 1 - i]);
                }
            }
            assert(blow_at(s, g, i));
        }
    }
    lemma_counts_cover(s, g, n);
}

} // verus!
