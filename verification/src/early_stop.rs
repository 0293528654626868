//! Early-stopping decisions: after each boosting round the validation loss
//! is recorded; a round that improves on the best loss so far becomes the
//! best round, and training stops once `patience` rounds in a row have not
//! improved. The trees are then cut back to the best round. Losses are
//! `f64` bit patterns compared as IEEE numbers.

use vstd::prelude::*;
use crate::float_bits::{is_nan_bits, le_bits, lemma_lt_implies_le, lemma_lt_not_le, lemma_order_trans, lt, lt_bits};

verus! {

/// The bits of `+∞`.
pub open spec fn infinity_bits() -> u64 {
    0x7FF0_0000_0000_0000u64
}

/// The record of the validation losses seen so far.
#[derive(Debug, Clone, Copy, PartialEq, Eq, Structural)]
pub struct EarlyStop {
    /// The least loss so far (bits; `+∞` before any improvement).
    pub best_loss: u64,
    /// The round that reached it first (0 before any improvement).
    pub best_round: usize,
    /// Rounds since the best round (or since the start, before any
    /// improvement).
    pub rounds_since_best: usize,
}

/// Why an early-stopping setup was refused.
#[derive(Debug, Clone, Copy, PartialEq, Eq, Structural)]
pub enum EarlyStopIssue {
    /// The patience is 0 (training would stop at the second round).
    ZeroPatience,
    /// The validation set has no rows.
    EmptyValidation,
    /// The validation set has another number of features than training.
    FeatureMismatch { train: usize, eval: usize },
}

/// The checks of an early-stopping setup, in order: a positive patience, a
/// non-empty validation set, the training set's number of features.
pub fn check_early_stopping(patience: usize, eval_rows: usize, eval_features: usize, train_features: usize) -> (r: Result<(), EarlyStopIssue>)
    ensures
        patience == 0 ==> r == Err::<(), EarlyStopIssue>(EarlyStopIssue::ZeroPatience),
        patience != 0 && eval_rows == 0 ==> r == Err::<(), EarlyStopIssue>(EarlyStopIssue::EmptyValidation),
        patience != 0 && eval_rows != 0 && eval_features != train_features ==> r == Err::<(), EarlyStopIssue>(
            EarlyStopIssue::FeatureMismatch { train: train_features, eval: eval_features },
        ),
        patience != 0 && eval_rows != 0 && eval_features == train_features ==> r is Ok,
{
    if patience == 0 {
        return Err(EarlyStopIssue::ZeroPatience);
    }
    if eval_rows == 0 {
        return Err(EarlyStopIssue::EmptyValidation);
    }
    if eval_features != train_features {
        return Err(EarlyStopIssue::FeatureMismatch { train: train_features, eval: eval_features });
    }
    Ok(())
}

/// The record before any round.
pub open spec fn early_stop_start() -> EarlyStop {
    EarlyStop { best_loss: infinity_bits(), best_round: 0, rounds_since_best: 0 }
}

/// The record after round `round` with validation loss `loss`: a loss below
/// the best one makes `round` the best round, anything else (an equal loss,
/// a larger one, NaN) counts one more round without improvement.
pub open spec fn record_after(s: EarlyStop, round: usize, loss: u64) -> EarlyStop {
    if lt_bits(loss, s.best_loss) {
        EarlyStop { best_loss: loss, best_round: round, rounds_since_best: 0 }
    } else {
        EarlyStop { rounds_since_best: (s.rounds_since_best + 1) as usize, ..s }
    }
}

/// The record after rounds `0..losses.len()` with these losses.
pub open spec fn replay(losses: Seq<u64>) -> EarlyStop
    decreases losses.len(),
{
    if losses.len() == 0 {
        early_stop_start()
    } else {
        record_after(replay(losses.drop_last()), (losses.len() - 1) as usize, losses.last())
    }
}

impl EarlyStop {
    /// The record before any round: best loss `+∞`, nothing counted.
    pub fn new() -> (s: EarlyStop)
        ensures
            s == early_stop_start(),
    {
        EarlyStop { best_loss: 0x7FF0_0000_0000_0000u64, best_round: 0, rounds_since_best: 0 }
    }

    /// Records round `round`'s validation loss and tells whether to stop:
    /// training stops when this round did not improve and `patience` rounds
    /// in a row have now gone without improvement.
    pub fn record(&mut self, round: usize, loss: u64, patience: usize) -> (stop: bool)
        requires
            old(self).rounds_since_best < usize::MAX,
        ensures
            *final(self) == record_after(*old(self), round, loss),
            stop == (!lt_bits(loss, old(self).best_loss) && final(self).rounds_since_best >= patience),
    {
        if lt(loss, self.best_loss) {
            self.best_loss = loss;
            self.best_round = round;
            self.rounds_since_best = 0;
            false
        } else {
            self.rounds_since_best = self.rounds_since_best + 1;
            self.rounds_since_best >= patience
        }
    }

    /// How many rounds of trees to keep out of `trained`: up to and
    /// including the best round.
    pub fn rounds_to_keep(&self, trained: usize) -> (n: usize)
        ensures
            n == (if trained > self.best_round + 1 {
                self.best_round + 1
            } else {
                trained as int
            }),
    {
        if trained > self.best_round && trained - self.best_round > 1 {
            self.best_round + 1
        } else {
            trained
        }
    }
}

/// With numeric losses, the best loss is never above any loss seen, and
/// once a round improved on `+∞` the best round holds the best loss.
proof fn lemma_replay_best(losses: Seq<u64>)
    requires
        losses.len() <= usize::MAX,
        forall|i: int| 0 <= i < losses.len() ==> !is_nan_bits(#[trigger] losses[i]),
    ensures
        !is_nan_bits(replay(losses).best_loss),
        forall|i: int| 0 <= i < losses.len() ==> le_bits(replay(losses).best_loss, #[trigger] losses[i]) || (
        replay(losses).best_loss == infinity_bits() && !lt_bits(losses[i], infinity_bits())),
        replay(losses).best_loss != infinity_bits() ==> replay(losses).best_round < losses.len() && losses[replay(
            losses,
        ).best_round as int] == replay(losses).best_loss,
    decreases losses.len(),
{
    assert(!is_nan_bits(infinity_bits())) by (bit_vector);
    if losses.len() > 0 {
        let prev = losses.drop_last();
        lemma_replay_best(prev);
        let s = replay(prev);
        let x = losses.last();
        lemma_lt_not_le(x, s.best_loss);
        lemma_lt_implies_le(x, s.best_loss);
        lemma_lt_implies_le(s.best_loss, x);
        if !lt_bits(x, s.best_loss) && s.best_loss != infinity_bits() {
            assert(losses[s.best_round as int] == prev[s.best_round as int]);
        }
        assert forall|i: int| 0 <= i < losses.len() implies le_bits(replay(losses).best_loss, #[trigger] losses[i])
            || (replay(losses).best_loss == infinity_bits() && !lt_bits(losses[i], infinity_bits())) by {
            if i < losses.len() - 1 {
                assert(losses[i] == prev[i]);
                lemma_order_trans(x, s.best_loss, losses[i]);
                lemma_lt_not_le(losses[i], infinity_bits());
                lemma_lt_not_le(x, infinity_bits());
                lemma_order_trans(losses[i], x, infinity_bits());
            }
        }
    }
}

/// Early stopping keeps the best: whatever numeric validation losses the
/// rounds produce, the recorded best loss is at most every one of them, and
/// once any round beat `+∞` the best round is one of the rounds and its
/// loss is the recorded best.
pub proof fn law_best_round_has_least_loss(losses: Seq<u64>)
    requires
        losses.len() <= usize::MAX,
        forall|i: int| 0 <= i < losses.len() ==> !is_nan_bits(#[trigger] losses[i]),
    ensures
        forall|i: int|
            0 <= i < losses.len() && lt_bits(#[trigger] losses[i], infinity_bits()) ==> le_bits(
                replay(losses).best_loss,
                losses[i],
            ),
        replay(losses).best_loss != infinity_bits() ==> replay(losses).best_round < losses.len() && losses[replay(
            losses,
        ).best_round as int] == replay(losses).best_loss,
{
    lemma_replay_best(losses);
}

/// The best round is the first one reaching the best loss: no earlier round
/// had a loss below or equal to it (an equal later loss does not move it).
pub proof fn law_best_round_is_first(losses: Seq<u64>)
    requires
        losses.len() <= usize::MAX,
        forall|i: int| 0 <= i < losses.len() ==> !is_nan_bits(#[trigger] losses[i]),
        replay(losses).best_loss != infinity_bits(),
    ensures
        forall|i: int| 0 <= i < replay(losses).best_round ==> lt_bits(replay(losses).best_loss, #[trigger] losses[i]),
    decreases losses.len(),
{
    lemma_replay_best(losses);
    let prev = losses.drop_last();
    let s = replay(prev);
    let x = losses.last();
    lemma_replay_best(prev);
    if lt_bits(x, s.best_loss) {
        // the last round is the best one: every earlier loss is at least the
        // earlier best, which is above the new one
        assert forall|i: int| 0 <= i < replay(losses).best_round implies lt_bits(
            replay(losses).best_loss,
            #[trigger] losses[i],
        ) by {
            assert(losses[i] == prev[i]);
            lemma_lt_not_le(x, s.best_loss);
            if s.best_loss == infinity_bits() && !le_bits(s.best_loss, prev[i]) {
                lemma_lt_not_le(prev[i], infinity_bits());
                lemma_lt_not_le(x, prev[i]);
                lemma_order_trans(prev[i], x, infinity_bits());
                lemma_lt_not_le(prev[i], x);
            } else {
                lemma_order_trans(x, s.best_loss, prev[i]);
            }
        }
    } else {
        law_best_round_is_first(prev);
        assert forall|i: int| 0 <= i < replay(losses).best_round implies lt_bits(
            replay(losses).best_loss,
            #[trigger] losses[i],
        ) by {
            assert(losses[i] == prev[i]);
        }
    }
}

/// Once a round has beaten `+∞`, the count of rounds without improvement
/// is the number of rounds after the best one: stopping with patience `p`
/// happens exactly `p` rounds after the best round.
pub proof fn law_rounds_since_best(losses: Seq<u64>)
    requires
        losses.len() <= usize::MAX,
        replay(losses).best_loss != infinity_bits(),
    ensures
        replay(losses).rounds_since_best == losses.len() - 1 - replay(losses).best_round,
    decreases losses.len(),
{
    if losses.len() > 0 {
        let prev = losses.drop_last();
        if !lt_bits(losses.last(), replay(prev).best_loss) {
            law_rounds_since_best(prev);
        }
    }
}

} // verus!
