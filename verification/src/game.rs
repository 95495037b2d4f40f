//! The game state: a level in `[3, 9]`, a secret of that many pairwise
//! distinct decimal digits, and the scorer over completed guesses.

use vstd::prelude::*;
use crate::rng::{fresh_rng, pick_index, shuffle_digits};
use crate::scoring::{
    blow_at, blows_upto, hits_upto, matched_digit, matched_upto, spec_blows, spec_hits,
};

verus! {

/// Why a game could not be started or finished.
#[derive(Clone, Copy, Debug, PartialEq, Eq, Structural)]
pub enum GameError {
    /// The requested level lies outside `[3, 9]`, or a supplied secret does
    /// not fit a level in that range.
    InvalidLevel,
    /// The terminal could not be put into, or driven in, raw mode.
    TerminalUnavailable,
}

/// A secret fit for play: its length is a level in `[3, 9]` and its digits
/// are decimal and pairwise distinct.
pub open spec fn valid_secret(s: Seq<u8>) -> bool {
    &&& 3 <= s.len() <= 9
    &&& s.no_duplicates()
    &&& forall|i: int| 0 <= i < s.len() ==> s[i] <= 9
}

/// One game: an immutable secret of `level` pairwise-distinct decimal
/// digits, created at construction and never changed.
#[derive(Debug)]
pub struct Game {
    pub secret: Vec<u8>,
    pub level: usize,
}

/// Digit `d` occurs in `s` before position `n`.
pub open spec fn occurs_before(s: Seq<u8>, d: u8, n: int) -> bool {
    exists|j: int| 0 <= j < n && s[j] == d
}

/// Inserting a value that does not occur in a duplicate-free sequence
/// keeps it duplicate-free, and moves the other elements predictably.
proof fn lemma_insert_distinct(s: Seq<u8>, pos: int, v: u8)
    requires
        0 <= pos <= s.len(),
        s.no_duplicates(),
        !s.contains(v),
    ensures
        s.insert(pos, v).no_duplicates(),
        s.insert(pos, v).len() == s.len() + 1,
        forall|i: int| 0 <= i < pos ==> #[trigger] s.insert(pos, v)[i] == s[i],
        forall|i: int| pos < i < s.len() + 1 ==> #[trigger] s.insert(pos, v)[i] == s[i - 1],
        s.insert(pos, v)[pos] == v,
{
    s.insert_ensures(pos, v);
    let t = s.insert(pos, v);
    assert forall|i: int| pos < i < s.len() + 1 implies #[trigger] t[i] == s[i - 1] by {
        assert(t[(i - 1) + 1] == s[i - 1]);
    }
    assert forall|i: int, j: int|
        0 <= i < t.len() && 0 <= j < t.len() && i != j implies t[i] != t[j] by {
        if i == pos {
            let b = if j < pos { j } else { j - 1 };
            assert(t[j] == s[b]);
            if t[j] == v {
                assert(s.contains(v));
            }
        } else if j == pos {
            let a = if i < pos { i } else { i - 1 };
            assert(t[i] == s[a]);
            if t[i] == v {
                assert(s.contains(v));
            }
        } else {
            let a = if i < pos { i } else { i - 1 };
            let b = if j < pos { j } else { j - 1 };
            assert(t[i] == s[a]);
            assert(t[j] == s[b]);
            assert(a != b);
        }
    }
}

impl Game {
    /// The type's invariant: the secret is valid and the level is its length.
    pub open spec fn wf(&self) -> bool {
        &&& self.secret@.len() == self.level
        &&& valid_secret(self.secret@)
    }

    /// Start a game at the given level with a freshly drawn secret: a random
    /// permutation of the digits 1 through 9, with 0 inserted at a random
    /// position, truncated to the first `level` digits. A leading zero is
    /// possible but no digit repeats.
    pub fn new(level: usize) -> (r: Result<Game, GameError>)
        ensures
            r is Ok <==> 3 <= level <= 9,
            r matches Ok(g) ==> g.wf() && g.level == level,
            r is Err ==> r == Err::<Game, GameError>(GameError::InvalidLevel),
    {
        if level < 3 || level > 9 {
            return Err(GameError::InvalidLevel);
        }
        let mut rng = fresh_rng();
        let mut digits: Vec<u8> = Vec::new();
        let mut d: u8 = 1;
        while d <= 9
            invariant
                1 <= d <= 10,
                digits@.len() == d as int - 1,
                forall|i: int| 0 <= i < digits@.len() ==> #[trigger] digits@[i] as int == i + 1,
            decreases 10 - d,
        {
            digits.push(d);
            d = d + 1;
        }
        proof {
            assert(digits@.len() == 9);
            assert forall|i: int, j: int|
                0 <= i < digits@.len() && 0 <= j < digits@.len() && i != j
                implies digits@[i] != digits@[j] by {
                assert(digits@[i] as int == i + 1);
                assert(digits@[j] as int == j + 1);
            }
            assert(digits@.no_duplicates());
            assert(!digits@.contains(0u8)) by {
                if digits@.contains(0u8) {
                    let k = choose|k: int| 0 <= k < digits@.len() && digits@[k] == 0u8;
                    assert(digits@[k] as int == k + 1);
                }
            }
        }
        let ghost pool = digits@;
        shuffle_digits(&mut rng, &mut digits);
        proof {
            pool.to_multiset_ensures();
            digits@.to_multiset_ensures();
            pool.lemma_multiset_has_no_duplicates();
            digits@.lemma_multiset_has_no_duplicates_conv();
            assert(digits@.len() == 9);
            assert forall|i: int| 0 <= i < digits@.len() implies 1 <= #[trigger] digits@[i] <= 9 by {
                assert(digits@.contains(digits@[i]));
                assert(digits@.to_multiset().count(digits@[i]) > 0);
                assert(pool.to_multiset().count(digits@[i]) > 0);
                assert(pool.contains(digits@[i]));
                let k = choose|k: int| 0 <= k < pool.len() && pool[k] == digits@[i];
                assert(pool[k] as int == k + 1);
            }
            assert(!digits@.contains(0u8)) by {
                if digits@.contains(0u8) {
                    assert(digits@.to_multiset().count(0u8) > 0);
                    assert(pool.to_multiset().count(0u8) > 0);
                    assert(pool.contains(0u8));
                    let k = choose|k: int| 0 <= k < pool.len() && pool[k] == 0u8;
                    assert(pool[k] as int == k + 1);
                }
            }
        }
        let zero_index = pick_index(&mut rng, digits.len());
        let ghost shuffled = digits@;
        digits.insert(zero_index, 0);
        proof {
            lemma_insert_distinct(shuffled, zero_index as int, 0u8);
            assert(digits@.no_duplicates());
            assert(digits@.len() == 10);
            assert forall|i: int| 0 <= i < digits@.len() implies #[trigger] digits@[i] <= 9 by {
                if i < zero_index as int {
                    assert(digits@[i] == shuffled[i]);
                } else if i > zero_index as int {
                    assert(digits@[i] == shuffled[i - 1]);
                }
            }
        }
        let ghost full = digits@;
        digits.truncate(level);
        proof {
            assert(digits@ == full.subrange(0, level as int));
            assert(digits@.len() == level);
            assert forall|i: int| 0 <= i < digits@.len() implies #[trigger] digits@[i] <= 9 by {
                assert(digits@[i] == full[i]);
            }
            assert forall|i: int, j: int|
                0 <= i < digits@.len() && 0 <= j < digits@.len() && i != j
                implies digits@[i] != digits@[j] by {
                assert(digits@[i] == full[i]);
                assert(digits@[j] == full[j]);
            }
            assert(digits@.no_duplicates());
        }
        Ok(Game { secret: digits, level })
    }

    /// Start a game from a caller-supplied secret after validating it: the
    /// length must be a level in `[3, 9]` and the digits decimal and
    /// pairwise distinct.
    pub fn with_secret(secret: Vec<u8>) -> (r: Result<Game, GameError>)
        ensures
            r is Ok <==> valid_secret(secret@),
            r matches Ok(g) ==> g.wf() && g.secret@ == secret@ && g.level == secret@.len(),
            r is Err ==> r == Err::<Game, GameError>(GameError::InvalidLevel),
    {
        let n = secret.len();
        if n < 3 || n > 9 {
            return Err(GameError::InvalidLevel);
        }
        let mut seen: Vec<bool> = Vec::new();
        let mut k: usize = 0;
        while k < 10
            invariant
                k <= 10,
                seen@.len() == k,
                forall|d: int| 0 <= d < k ==> !(#[trigger] seen@[d]),
            decreases 10 - k,
        {
            seen.push(false);
            k = k + 1;
        }
        let mut i: usize = 0;
        while i < n
            invariant
                i <= n,
                n == secret@.len(),
                3 <= n <= 9,
                seen@.len() == 10,
                forall|p: int| 0 <= p < i ==> #[trigger] secret@[p] <= 9,
                forall|d: u8| d <= 9 ==> (#[trigger] seen@[d as int] <==> occurs_before(
                    secret@,
                    d,
                    i as int,
                )),
                forall|p: int, q: int| 0 <= p < q < i ==> secret@[p] != secret@[q],
            decreases n - i,
        {
            let d = secret[i];
            if d > 9 {
                proof {
                    assert(!valid_secret(secret@)) by {
                        if valid_secret(secret@) {
                            assert(secret@[i as int] <= 9);
                        }
                    }
                }
                return Err(GameError::InvalidLevel);
            }
            if seen[d as usize] {
                proof {
                    let j = choose|j: int| 0 <= j < i as int && secret@[j] == d;
                    assert(!valid_secret(secret@)) by {
                        if valid_secret(secret@) {
                            assert(secret@[j] != secret@[i as int]);
                        }
                    }
                }
                return Err(GameError::InvalidLevel);
            }
            seen.set(d as usize, true);
            proof {
                assert forall|dd: u8| dd <= 9 implies (#[trigger] seen@[dd as int]
                    <==> occurs_before(secret@, dd, i as int + 1)) by {
                    if dd == d {
                        assert(0 <= (i as int) && (i as int) < i as int + 1 && secret@[i as int] == dd);
                        assert(occurs_before(secret@, dd, i as int + 1));
                    } else {
                        if occurs_before(secret@, dd, i as int + 1) {
                            let j = choose|j: int| 0 <= j < i as int + 1 && secret@[j] == dd;
                            assert(0 <= j < i as int);
                            assert(occurs_before(secret@, dd, i as int));
                        }
                        if occurs_before(secret@, dd, i as int) {
                            let j = choose|j: int| 0 <= j < i as int && secret@[j] == dd;
                            assert(occurs_before(secret@, dd, i as int + 1));
                        }
                    }
                }
                assert forall|p: int| 0 <= p < i as int
                    implies secret@[p] != secret@[i as int] by {
                    if secret@[p] == secret@[i as int] {
                        assert(occurs_before(secret@, d, i as int));
                    }
                }
            }
            i = i + 1;
        }
        proof {
            assert forall|p: int, q: int|
                0 <= p < secret@.len() && 0 <= q < secret@.len() && p != q
                implies secret@[p] != secret@[q] by {}
            assert(secret@.no_duplicates());
        }
        Ok(Game { secret, level: n })
    }

    /// Score a completed guess against the secret: how many digits hit in
    /// place, and how many more occur elsewhere in the secret.
    pub fn check_guess(&self, guess: &Vec<u8>) -> (r: (usize, usize))
        requires
            self.wf(),
            guess@.len() == self.secret@.len(),
            forall|i: int| 0 <= i < guess@.len() ==> guess@[i] <= 9,
        ensures
            r.0 as int == spec_hits(self.secret@, guess@),
            r.1 as int == spec_blows(self.secret@, guess@),
    {
        let ghost s = self.secret@;
        let ghost g = guess@;
        let n = self.secret.len();
        let mut matched: Vec<bool> = Vec::new();
        let mut k: usize = 0;
        while k < 10
            invariant
                k <= 10,
                matched@.len() == k,
                forall|d: int| 0 <= d < k ==> !(#[trigger] matched@[d]),
            decreases 10 - k,
        {
            matched.push(false);
            k = k + 1;
        }
        let mut hits: usize = 0;
        let mut i: usize = 0;
        while i < n
            invariant
                i <= n,
                n == s.len(),
                g.len() == s.len(),
                s == self.secret@,
                g == guess@,
                forall|p: int| 0 <= p < s.len() ==> #[trigger] s[p] <= 9,
                forall|p: int| 0 <= p < g.len() ==> #[trigger] g[p] <= 9,
                matched@.len() == 10,
                hits as int == hits_upto(s, g, i as int),
                hits <= i,
                forall|d: u8| d <= 9 ==> (#[trigger] matched@[d as int] <==> matched_upto(
                    s,
                    g,
                    d,
                    i as int,
                )),
            decreases n - i,
        {
            let sd = self.secret[i];
            let gd = guess[i];
            if sd == gd {
                hits = hits + 1;
                matched.set(sd as usize, true);
                proof {
                    assert forall|d: u8| d <= 9 implies (#[trigger] matched@[d as int]
                        <==> matched_upto(s, g, d, i as int + 1)) by {
                        if d == sd {
                            assert(0 <= (i as int) && (i as int) < i as int + 1 && s[i as int] == d && g[i as int]
                                == d);
                            assert(matched_upto(s, g, d, i as int + 1));
                        } else {
                            if matched_upto(s, g, d, i as int + 1) {
                                let j = choose|j: int|
                                    0 <= j < i as int + 1 && s[j] == d && g[j] == d;
                                assert(0 <= j < i as int);
                                assert(matched_upto(s, g, d, i as int));
                            }
                            if matched_upto(s, g, d, i as int) {
                                let j = choose|j: int| 0 <= j < i as int && s[j] == d && g[j] == d;
                                assert(matched_upto(s, g, d, i as int + 1));
                            }
                        }
                    }
                }
            } else {
                proof {
                    assert forall|d: u8| d <= 9 implies (#[trigger] matched@[d as int]
                        <==> matched_upto(s, g, d, i as int + 1)) by {
                        if matched_upto(s, g, d, i as int + 1) {
                            let j = choose|j: int| 0 <= j < i as int + 1 && s[j] == d && g[j] == d;
                            assert(0 <= j < i as int);
                            assert(matched_upto(s, g, d, i as int));
                        }
                        if matched_upto(s, g, d, i as int) {
                            let j = choose|j: int| 0 <= j < i as int && s[j] == d && g[j] == d;
                            assert(matched_upto(s, g, d, i as int + 1));
                        }
                    }
                }
            }
            i = i + 1;
        }
        let mut blows: usize = 0;
        let mut b: usize = 0;
        while b < n
            invariant
                b <= n,
                n == s.len(),
                g.len() == s.len(),
                s == self.secret@,
                g == guess@,
                forall|p: int| 0 <= p < g.len() ==> #[trigger] g[p] <= 9,
                matched@.len() == 10,
                forall|d: u8| d <= 9 ==> (#[trigger] matched@[d as int] <==> matched_digit(
                    s,
                    g,
                    d,
                )),
                blows as int == blows_upto(s, g, b as int),
                blows <= b,
            decreases n - b,
        {
            let gd = guess[b];
            if !matched[gd as usize] && contains_digit(&self.secret, gd) {
                proof {
                    assert(s[b as int] != g[b as int]) by {
                        if s[b as int] == g[b as int] {
                            assert(0 <= (b as int) && (b as int) < s.len() && s[b as int] == gd && g[b as int]
                                == gd);
                            assert(matched_upto(s, g, gd, s.len() as int));
                        }
                    }
                    assert(blow_at(s, g, b as int));
                }
                blows = blows + 1;
            } else {
                proof {
                    assert(!blow_at(s, g, b as int));
                }
            }
            b = b + 1;
        }
        (hits, blows)
    }
}

/// Whether the digit occurs anywhere in the sequence.
fn contains_digit(v: &Vec<u8>, d: u8) -> (r: bool)
    ensures
        r <==> v@.contains(d),
{
    let mut i: usize = 0;
    while i < v.len()
        invariant
            i <= v@.len(),
            forall|k: int| 0 <= k < i ==> #[trigger] v@[k] != d,
        decreases v@.len() - i,
    {
        if v[i] == d {
            return true;
        }
        i = i + 1;
    }
    proof {
        assert(!v@.contains(d)) by {
            if v@.contains(d) {
                let j = choose|j: int| 0 <= j < v@.len() && v@[j] == d;
            }
        }
    }
    false
}

} // verus!
