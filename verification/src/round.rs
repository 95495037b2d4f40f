//! The round loop's decisions, one tick at a time.
//!
//! The driver around it owns the clock, the channel and the terminal; each
//! tick it hands in the elapsed whole seconds of the current guess and at
//! most one freshly arrived digit, and acts on the outcome: keep polling,
//! show a score and re-anchor the clock, or stop the round.

use vstd::prelude::*;
use crate::game::Game;
use crate::scoring::{lemma_score_bounds, spec_blows, spec_hits};

verus! {

/// The per-guess countdown budget, in whole seconds.
pub const COUNTDOWN_SECONDS: u64 = 10;

/// What one tick decided.
#[derive(Clone, Copy, Debug, PartialEq, Eq, Structural)]
pub enum TickOutcome {
    /// The guess is still being entered; keep polling.
    Pending,
    /// A full guess was completed but missed; the clock must be re-anchored.
    Scored { hits: usize, blows: usize },
    /// A full guess matched the secret; the round is over.
    Won { attempts: u32 },
    /// The countdown ran out; the round is over.
    Lost,
}

/// The state the round loop owns: the game, the in-progress digit buffer,
/// the count of completed incorrect guesses, and the stop signal raised at
/// round end.
pub struct Round {
    pub game: Game,
    pub buffer: Vec<u8>,
    pub attempts: u32,
    pub stopped: bool,
}

/// The entry buffer after the tick's input step: a fresh digit is appended
/// unless the buffer already holds a full guess.
pub open spec fn buffer_after_input(buf: Seq<u8>, key: Option<u8>, level: int) -> Seq<u8> {
    match key {
        Some(d) => if buf.len() < level {
            buf.push(d)
        } else {
            buf
        },
        None => buf,
    }
}

/// Seconds left on the countdown for a guess whose entry began
/// `elapsed_secs` ago: the budget less the elapsed time, floored at zero.
pub fn remaining_time(elapsed_secs: u64) -> (r: u64)
    ensures
        r == if elapsed_secs >= COUNTDOWN_SECONDS {
            0u64
        } else {
            (COUNTDOWN_SECONDS - elapsed_secs) as u64
        },
{
    if elapsed_secs >= COUNTDOWN_SECONDS {
        0
    } else {
        COUNTDOWN_SECONDS - elapsed_secs
    }
}

/// ASCII text of the entered digits separated by dashes, as the status
/// line shows them: `1-2-3`.
pub open spec fn dashed_text(s: Seq<u8>) -> Seq<u8>
    decreases s.len(),
{
    if s.len() == 0 {
        Seq::empty()
    } else if s.len() == 1 {
        seq![(s[0] + 48) as u8]
    } else {
        dashed_text(s.drop_last()) + seq![45u8, (s.last() + 48) as u8]
    }
}

/// Render the entered digits for the status line: their ASCII characters
/// separated by dashes.
pub fn dashed_digits(digits: &Vec<u8>) -> (r: Vec<u8>)
    requires
        forall|i: int| 0 <= i < digits@.len() ==> digits@[i] <= 9,
    ensures
        r@ == dashed_text(digits@),
{
    let mut r: Vec<u8> = Vec::new();
    let mut i: usize = 0;
    while i < digits.len()
        invariant
            i <= digits@.len(),
            forall|k: int| 0 <= k < digits@.len() ==> digits@[k] <= 9,
            r@ == dashed_text(digits@.subrange(0, i as int)),
        decreases digits@.len() - i,
    {
        if i > 0 {
            r.push(45);
        }
        r.push(digits[i] + 48);
        proof {
            let pre = digits@.subrange(0, i as int);
            let cur = digits@.subrange(0, i as int + 1);
            assert(cur.drop_last() =~= pre);
            assert(cur.last() == digits@[i as int]);
            if i == 0 {
                assert(r@ =~= dashed_text(cur));
            } else {
                assert(r@ =~= dashed_text(pre) + seq![45u8, (digits@[i as int] + 48) as u8]);
            }
            assert(r@ =~= dashed_text(cur));
        }
        i = i + 1;
    }
    proof {
        assert(digits@.subrange(0, digits@.len() as int) =~= digits@);
    }
    r
}

/// Number of scored (completed but incorrect) guesses among the first `n`
/// tick outcomes.
pub open spec fn scored_before(outs: Seq<TickOutcome>, n: int) -> int
    decreases n,
{
    if n <= 0 {
        0
    } else {
        scored_before(outs, n - 1) + if outs[n - 1] is Scored {
            1int
        } else {
            0int
        }
    }
}

/// Law: along any run of the round loop, the attempt count equals the
/// number of prior incorrect completions, so the count a win reports is
/// exactly that number. The hypotheses are what `Round::new` and
/// `Round::tick` ensure of every run: `atts[t]` is the attempt count before
/// the `t`-th tick, starting at zero and advanced by one exactly when that
/// tick scored an incorrect guess.
pub proof fn lemma_attempts_count_prior_misses(outs: Seq<TickOutcome>, atts: Seq<u32>, i: int)
    requires
        atts.len() == outs.len() + 1,
        atts[0] == 0,
        forall|t: int| 0 <= t < outs.len() ==> atts[t + 1] as int == atts[t] as int + (
        if #[trigger] outs[t] is Scored {
            1int
        } else {
            0int
        }),
        0 <= i <= outs.len(),
    ensures
        atts[i] as int == scored_before(outs, i),
    decreases i,
{
    if i > 0 {
        lemma_attempts_count_prior_misses(outs, atts, i - 1);
        assert(atts[(i - 1) + 1] as int == atts[i - 1] as int + (if outs[i - 1] is Scored {
            1int
        } else {
            0int
        }));
    }
}

impl Round {
    /// The loop's invariant: the game is well formed and the buffer holds
    /// at most one guess of decimal digits.
    pub open spec fn wf(&self) -> bool {
        &&& self.game.wf()
        &&& self.buffer@.len() <= self.game.level
        &&& forall|i: int| 0 <= i < self.buffer@.len() ==> self.buffer@[i] <= 9
    }

    /// Number of digits still required to complete the current guess, as
    /// the status line shows it.
    pub fn digits_needed(&self) -> (r: usize)
        requires
            self.wf(),
        ensures
            r == self.game.level - self.buffer@.len(),
    {
        self.game.level - self.buffer.len()
    }

    /// A fresh round of the given game: empty buffer, no attempts yet, the
    /// stop signal not raised.
    pub fn new(game: Game) -> (r: Round)
        requires
            game.wf(),
        ensures
            r.wf(),
            r.game == game,
            r.buffer@ == Seq::<u8>::empty(),
            r.attempts == 0,
            !r.stopped,
    {
        Round { game, buffer: Vec::new(), attempts: 0, stopped: false }
    }

    /// One tick of the round loop. The countdown is checked first: once the
    /// budget is exhausted the round is lost and the stop signal raised. A
    /// fresh digit, if any, then enters the buffer; a full buffer is scored
    /// at once, either winning the round (all digits hit, the attempt count
    /// reported is the number of prior incorrect guesses) or clearing the
    /// buffer for the next guess with the attempt count advanced by one.
    pub fn tick(&mut self, elapsed_secs: u64, key: Option<u8>) -> (out: TickOutcome)
        requires
            old(self).wf(),
            !old(self).stopped,
            old(self).attempts < u32::MAX,
            key matches Some(d) ==> d <= 9,
        ensures
            final(self).game == old(self).game,
            final(self).wf(),
            out is Lost <==> elapsed_secs >= COUNTDOWN_SECONDS,
            elapsed_secs >= COUNTDOWN_SECONDS ==> ({
                &&& final(self).stopped
                &&& final(self).buffer@ == old(self).buffer@
                &&& final(self).attempts == old(self).attempts
            }),
            elapsed_secs < COUNTDOWN_SECONDS ==> (out is Won <==> buffer_after_input(
                old(self).buffer@,
                key,
                old(self).game.level as int,
            ) == old(self).game.secret@),
            elapsed_secs < COUNTDOWN_SECONDS ==> ({
                let buf = buffer_after_input(
                    old(self).buffer@,
                    key,
                    old(self).game.level as int,
                );
                let s = old(self).game.secret@;
                &&& (buf.len() == old(self).game.level && spec_hits(s, buf) == s.len()) ==> ({
                    &&& out == (TickOutcome::Won { attempts: old(self).attempts })
                    &&& final(self).stopped
                    &&& final(self).attempts == old(self).attempts
                    &&& final(self).buffer@ == buf
                })
                &&& (buf.len() == old(self).game.level && spec_hits(s, buf) != s.len()) ==> ({
                    &&& (out matches TickOutcome::Scored { hits, blows } && hits as int
                        == spec_hits(s, buf) && blows as int == spec_blows(s, buf))
                    &&& final(self).attempts == old(self).attempts + 1
                    &&& final(self).buffer@ == Seq::<u8>::empty()
                    &&& !final(self).stopped
                })
                &&& buf.len() < old(self).game.level ==> ({
                    &&& out == TickOutcome::Pending
                    &&& final(self).buffer@ == buf
                    &&& final(self).attempts == old(self).attempts
                    &&& !final(self).stopped
                })
            }),
    {
        if elapsed_secs >= COUNTDOWN_SECONDS {
            self.stopped = true;
            return TickOutcome::Lost;
        }
        if let Some(d) = key {
            if self.buffer.len() < self.game.level {
                self.buffer.push(d);
            }
        }
        if self.buffer.len() == self.game.level {
            proof {
                lemma_score_bounds(self.game.secret@, self.buffer@);
            }
            let (hits, blows) = self.game.check_guess(&self.buffer);
            if hits == self.game.level {
                self.stopped = true;
                return TickOutcome::Won { attempts: self.attempts };
            }
            self.attempts = self.attempts + 1;
            self.buffer.clear();
            return TickOutcome::Scored { hits, blows };
        }
        TickOutcome::Pending
    }
}

} // verus!
