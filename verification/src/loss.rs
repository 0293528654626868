//! Loss identities. The numeric side of each loss (value, gradient, hessian,
//! transform) is floating-point and lives outside this crate; here each loss
//! is known by the name that the model file records, and a loss with a
//! parameter keeps it as `f64` bits.

use vstd::prelude::*;

verus! {

/// A loss, known by its model-file name.
pub trait Loss {
    /// The name's characters.
    spec fn spec_name() -> Seq<char>;

    /// The loss name (recorded in the model header).
    fn name(&self) -> (r: &'static str)
        ensures
            r@ == Self::spec_name(),
    ;
}

/// L2 regression loss (squared error).
#[derive(Debug, Clone, Copy, Default)]
pub struct SquaredError;

/// Binary log-loss.
#[derive(Debug, Clone, Copy, Default)]
pub struct BinaryLogLoss;

/// Poisson regression loss (log link).
#[derive(Debug, Clone, Copy, Default)]
pub struct PoissonLoss;

/// Gamma regression loss (log link).
#[derive(Debug, Clone, Copy, Default)]
pub struct GammaLoss;

impl Loss for SquaredError {
    open spec fn spec_name() -> Seq<char> {
        seq!['s', 'q', 'u', 'a', 'r', 'e', 'd', '_', 'e', 'r', 'r', 'o', 'r']
    }

    fn name(&self) -> (r: &'static str) {
        proof {
            reveal_strlit("squared_error");
        }
        "squared_error"
    }
}

impl Loss for BinaryLogLoss {
    open spec fn spec_name() -> Seq<char> {
        seq!['b', 'i', 'n', 'a', 'r', 'y', '_', 'l', 'o', 'g', 'l', 'o', 's', 's']
    }

    fn name(&self) -> (r: &'static str) {
        proof {
            reveal_strlit("binary_logloss");
        }
        "binary_logloss"
    }
}

impl Loss for PoissonLoss {
    open spec fn spec_name() -> Seq<char> {
        seq!['p', 'o', 'i', 's', 's', 'o', 'n']
    }

    fn name(&self) -> (r: &'static str) {
        proof {
            reveal_strlit("poisson");
        }
        "poisson"
    }
}

impl Loss for GammaLoss {
    open spec fn spec_name() -> Seq<char> {
        seq!['g', 'a', 'm', 'm', 'a']
    }

    fn name(&self) -> (r: &'static str) {
        proof {
            reveal_strlit("gamma");
        }
        "gamma"
    }
}

/// Pseudo-Huber regression loss; `delta` (bits of a positive `f64`) sets
/// where it turns from quadratic to linear.
#[derive(Debug, Clone, Copy)]
pub struct HuberLoss {
    pub delta: u64,
}

/// Quantile (pinball) regression loss for the quantile `alpha` (bits of an
/// `f64` in `(0, 1)`).
#[derive(Debug, Clone, Copy)]
pub struct QuantileLoss {
    pub alpha: u64,
}

/// Tweedie regression loss (log link) with variance power `power` (bits of
/// an `f64` in `(1, 2)`).
#[derive(Debug, Clone, Copy)]
pub struct TweedieLoss {
    pub power: u64,
}

impl Default for HuberLoss {
    /// `delta = 1.0`.
    fn default() -> (l: HuberLoss)
        ensures
            l.delta == 0x3FF0_0000_0000_0000u64,
    {
        HuberLoss { delta: 0x3FF0_0000_0000_0000u64 }
    }
}

impl Default for QuantileLoss {
    /// `alpha = 0.5` (the median).
    fn default() -> (l: QuantileLoss)
        ensures
            l.alpha == 0x3FE0_0000_0000_0000u64,
    {
        QuantileLoss { alpha: 0x3FE0_0000_0000_0000u64 }
    }
}

impl Default for TweedieLoss {
    /// `power = 1.5`.
    fn default() -> (l: TweedieLoss)
        ensures
            l.power == 0x3FF8_0000_0000_0000u64,
    {
        TweedieLoss { power: 0x3FF8_0000_0000_0000u64 }
    }
}

impl Loss for HuberLoss {
    open spec fn spec_name() -> Seq<char> {
        seq!['h', 'u', 'b', 'e', 'r']
    }

    fn name(&self) -> (r: &'static str) {
        proof {
            reveal_strlit("huber");
        }
        "huber"
    }
}

impl Loss for QuantileLoss {
    open spec fn spec_name() -> Seq<char> {
        seq!['q', 'u', 'a', 'n', 't', 'i', 'l', 'e']
    }

    fn name(&self) -> (r: &'static str) {
        proof {
            reveal_strlit("quantile");
        }
        "quantile"
    }
}

impl Loss for TweedieLoss {
    open spec fn spec_name() -> Seq<char> {
        seq!['t', 'w', 'e', 'e', 'd', 'i', 'e']
    }

    fn name(&self) -> (r: &'static str) {
        proof {
            reveal_strlit("tweedie");
        }
        "tweedie"
    }
}

} // verus!
