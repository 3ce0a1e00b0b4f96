//! Conservation-aware action guard.
//!
//! The conductor keeps `C = gamma + eta` inside a stable region. A planned
//! action (for example draining an agent, which lowers eta) is checked *before*
//! execution: if applying its deltas would push the fleet outside the region,
//! the action is **deferred**, not executed.
//!
//! The region is given by three bounds: gamma must remain in
//! `[gamma_min, gamma_max]` and eta must remain at or above `eta_floor`. The
//! floor that follows for `C` is `gamma_min + eta_floor`; eta has no ceiling.

use vstd::arithmetic::power2::*;
use vstd::prelude::*;
use vstd::string::*;

use crate::binary64;
use crate::binary64::Binary64;
use crate::rounding;

verus! {

/// Conservation bounds for `gamma + eta = C`.
#[derive(Debug, Clone, Copy, PartialEq)]
pub struct ConservationConfig {
    /// Minimum allowed value of gamma.
    pub gamma_min: Binary64,
    /// Maximum allowed value of gamma.
    pub gamma_max: Binary64,
    /// Minimum allowed value of eta (a floor; eta has no ceiling).
    pub eta_floor: Binary64,
}

/// Result of a conservation check.
#[derive(Debug, Clone, Copy, PartialEq)]
pub enum ConservationVerdict {
    /// The action may execute; these are the resulting gamma, eta and C.
    Safe { gamma: Binary64, eta: Binary64, c: Binary64 },
    /// The action must be deferred; applying it would breach a bound.
    Deferred {
        reason: DeferredReason,
        would_be_gamma: Binary64,
        would_be_eta: Binary64,
        would_be_c: Binary64,
        /// The bound that would be breached (gamma_min, gamma_max, or
        /// eta_floor); the floor of C where safety could not be decided.
        limit: Binary64,
    },
}

/// Why a planned action was deferred.
#[derive(Debug, Clone, Copy, PartialEq, Eq, Structural)]
pub enum DeferredReason {
    /// Gamma would drop below `gamma_min`.
    GammaBelowMin,
    /// Gamma would exceed `gamma_max`.
    GammaAboveMax,
    /// Eta would drop below `eta_floor`.
    EtaBelowFloor,
    /// The config is unsound, or an input or a resulting value is not a number;
    /// safety could not be proven.
    UnsoundConfigOrInput,
}

impl ConservationConfig {
    /// Bounds that are numbers, around a range of gamma that is not inverted.
    pub open spec fn sound(self) -> bool {
        !self.eta_floor.nan_spec() && self.gamma_min.le(self.gamma_max)
    }

    /// The stable region. Its borders belong to it; not-a-number does not.
    pub open spec fn contains(self, gamma: Binary64, eta: Binary64) -> bool {
        &&& self.gamma_min.le(gamma)
        &&& gamma.le(self.gamma_max)
        &&& self.eta_floor.le(eta)
    }

    /// Whether an action that changes gamma and eta by the given deltas is
    /// safe: the config is sound and the resulting state lies in the region.
    pub open spec fn allows(
        self,
        gamma: Binary64,
        eta: Binary64,
        delta_gamma: Binary64,
        delta_eta: Binary64,
    ) -> bool {
        self.sound() && self.contains(gamma.plus(delta_gamma), eta.plus(delta_eta))
    }

    /// What stands in the way of an action: first an unsound config or an input
    /// that is not a number, then the bounds, those of gamma before that of eta,
    /// and last a resulting value that is not a number.
    pub open spec fn obstacle(
        self,
        gamma: Binary64,
        eta: Binary64,
        delta_gamma: Binary64,
        delta_eta: Binary64,
    ) -> Option<DeferredReason> {
        let new_gamma = gamma.plus(delta_gamma);
        let new_eta = eta.plus(delta_eta);
        if !self.sound() || gamma.nan_spec() || eta.nan_spec() || delta_gamma.nan_spec()
            || delta_eta.nan_spec() {
            Some(DeferredReason::UnsoundConfigOrInput)
        } else if new_gamma.lt(self.gamma_min) {
            Some(DeferredReason::GammaBelowMin)
        } else if self.gamma_max.lt(new_gamma) {
            Some(DeferredReason::GammaAboveMax)
        } else if new_eta.lt(self.eta_floor) {
            Some(DeferredReason::EtaBelowFloor)
        } else if new_gamma.nan_spec() || new_eta.nan_spec() {
            Some(DeferredReason::UnsoundConfigOrInput)
        } else {
            None
        }
    }

    /// The bound that a reason speaks of.
    pub open spec fn bound(self, reason: DeferredReason) -> Binary64 {
        match reason {
            DeferredReason::GammaBelowMin => self.gamma_min,
            DeferredReason::GammaAboveMax => self.gamma_max,
            DeferredReason::EtaBelowFloor => self.eta_floor,
            DeferredReason::UnsoundConfigOrInput => self.gamma_min.plus(self.eta_floor),
        }
    }

    /// The verdict on an action: the resulting state if it is safe; otherwise
    /// the obstacle, the state that the action would lead to and the bound in
    /// its way. Where safety cannot be decided, the current state is reported.
    pub open spec fn verdict(
        self,
        gamma: Binary64,
        eta: Binary64,
        delta_gamma: Binary64,
        delta_eta: Binary64,
    ) -> ConservationVerdict {
        let new_gamma = gamma.plus(delta_gamma);
        let new_eta = eta.plus(delta_eta);
        match self.obstacle(gamma, eta, delta_gamma, delta_eta) {
            None => ConservationVerdict::Safe {
                gamma: new_gamma,
                eta: new_eta,
                c: new_gamma.plus(new_eta),
            },
            Some(DeferredReason::UnsoundConfigOrInput) => ConservationVerdict::Deferred {
                reason: DeferredReason::UnsoundConfigOrInput,
                would_be_gamma: gamma,
                would_be_eta: eta,
                would_be_c: gamma.plus(eta),
                limit: self.bound(DeferredReason::UnsoundConfigOrInput),
            },
            Some(reason) => ConservationVerdict::Deferred {
                reason,
                would_be_gamma: new_gamma,
                would_be_eta: new_eta,
                would_be_c: new_gamma.plus(new_eta),
                limit: self.bound(reason),
            },
        }
    }

    /// The default bounds: gamma in `[-1, 1]`, eta at or above zero.
    pub open spec fn permissive() -> ConservationConfig {
        ConservationConfig {
            gamma_min: Binary64::of_nat(1).minus(),
            gamma_max: Binary64::of_nat(1),
            eta_floor: Binary64::of_nat(0),
        }
    }

    /// Construct a config. `gamma_min` must be `<= gamma_max`; an inverted or
    /// not-a-number range yields a config for which every [`Self::check`] defers
    /// (there is no stable region), which is the safe failure mode.
    pub fn new(gamma_min: Binary64, gamma_max: Binary64, eta_floor: Binary64) -> (config:
        ConservationConfig)
        ensures
            config == (ConservationConfig { gamma_min, gamma_max, eta_floor }),
    {
        ConservationConfig { gamma_min, gamma_max, eta_floor }
    }

    /// Implied lower bound on `C = gamma + eta`: both terms at their minima.
    pub fn c_min(&self) -> (bound: Binary64)
        ensures
            bound == self.gamma_min.plus(self.eta_floor),
    {
        self.gamma_min.sum(self.eta_floor)
    }

    /// `true` if the configured bounds describe a non-empty stable region. A
    /// bound that is not a number or an inverted gamma range makes the config
    /// unsound.
    pub fn is_sound(&self) -> (answer: bool)
        ensures
            answer == self.sound(),
    {
        !self.eta_floor.is_nan() && self.gamma_min.at_most(self.gamma_max)
    }

    /// Check whether a planned action is safe to execute right now, given the
    /// current gamma and eta and the deltas that it would apply.
    ///
    /// The action is safe iff, after applying the deltas, gamma stays in
    /// `[gamma_min, gamma_max]` and eta stays at or above `eta_floor`. Any input
    /// that is not a number and any unsound config always defers: when safety
    /// cannot be proven, the action is not taken.
    pub fn check(
        &self,
        gamma: Binary64,
        eta: Binary64,
        delta_gamma: Binary64,
        delta_eta: Binary64,
    ) -> (verdict: ConservationVerdict)
        ensures
            verdict == self.verdict(gamma, eta, delta_gamma, delta_eta),
            verdict is Safe <==> self.allows(gamma, eta, delta_gamma, delta_eta),
    {
        // Unsound config or no number: cannot prove safety, so defer.
        if !self.is_sound() || gamma.is_nan() || eta.is_nan() || delta_gamma.is_nan()
            || delta_eta.is_nan() {
            return ConservationVerdict::defer_unsound(self, gamma, eta);
        }
        let new_gamma = gamma.sum(delta_gamma);
        let new_eta = eta.sum(delta_eta);
        let new_c = new_gamma.sum(new_eta);
        if new_gamma.less_than(self.gamma_min) {
            return ConservationVerdict::Deferred {
                reason: DeferredReason::GammaBelowMin,
                would_be_gamma: new_gamma,
                would_be_eta: new_eta,
                would_be_c: new_c,
                limit: self.gamma_min,
            };
        }
        if self.gamma_max.less_than(new_gamma) {
            return ConservationVerdict::Deferred {
                reason: DeferredReason::GammaAboveMax,
                would_be_gamma: new_gamma,
                would_be_eta: new_eta,
                would_be_c: new_c,
                limit: self.gamma_max,
            };
        }
        if new_eta.less_than(self.eta_floor) {
            return ConservationVerdict::Deferred {
                reason: DeferredReason::EtaBelowFloor,
                would_be_gamma: new_gamma,
                would_be_eta: new_eta,
                would_be_c: new_c,
                limit: self.eta_floor,
            };
        }
        // Infinities that cancel leave no number, which lies in no region.
        if new_gamma.is_nan() || new_eta.is_nan() {
            return ConservationVerdict::defer_unsound(self, gamma, eta);
        }
        ConservationVerdict::Safe { gamma: new_gamma, eta: new_eta, c: new_c }
    }

    /// Convenience: `true` iff [`Self::check`] says that the action is safe.
    pub fn is_safe(
        &self,
        gamma: Binary64,
        eta: Binary64,
        delta_gamma: Binary64,
        delta_eta: Binary64,
    ) -> (answer: bool)
        ensures
            answer == self.allows(gamma, eta, delta_gamma, delta_eta),
    {
        self.check(gamma, eta, delta_gamma, delta_eta).is_safe()
    }
}

impl Default for ConservationConfig {
    /// A permissive-but-real default: gamma in `[-1, 1]`, eta at least zero.
    fn default() -> (config: ConservationConfig)
        ensures
            config == ConservationConfig::permissive(),
    {
        let one = Binary64::from_count(1);
        ConservationConfig::new(one.negate(), one, Binary64::from_count(0))
    }
}

impl ConservationVerdict {
    /// `true` if the verdict says the action is safe to execute.
    pub fn is_safe(&self) -> (answer: bool)
        ensures
            answer == (self is Safe),
    {
        match self {
            ConservationVerdict::Safe { .. } => true,
            ConservationVerdict::Deferred { .. } => false,
        }
    }

    /// `true` if the action should be deferred.
    pub fn is_deferred(&self) -> (answer: bool)
        ensures
            answer == (self is Deferred),
    {
        match self {
            ConservationVerdict::Safe { .. } => false,
            ConservationVerdict::Deferred { .. } => true,
        }
    }

    fn defer_unsound(cfg: &ConservationConfig, gamma: Binary64, eta: Binary64) -> (verdict:
        ConservationVerdict)
        ensures
            verdict == (ConservationVerdict::Deferred {
                reason: DeferredReason::UnsoundConfigOrInput,
                would_be_gamma: gamma,
                would_be_eta: eta,
                would_be_c: gamma.plus(eta),
                limit: cfg.gamma_min.plus(cfg.eta_floor),
            }),
    {
        ConservationVerdict::Deferred {
            reason: DeferredReason::UnsoundConfigOrInput,
            would_be_gamma: gamma,
            would_be_eta: eta,
            would_be_c: gamma.sum(eta),
            limit: cfg.c_min(),
        }
    }
}

impl DeferredReason {
    /// The reason in words.
    pub open spec fn label(self) -> Seq<char> {
        match self {
            DeferredReason::GammaBelowMin => "gamma below gamma_min"@,
            DeferredReason::GammaAboveMax => "gamma above gamma_max"@,
            DeferredReason::EtaBelowFloor => "eta below eta_floor"@,
            DeferredReason::UnsoundConfigOrInput => "unsound config or NaN input"@,
        }
    }

    /// The reason in words, for display.
    pub fn to_string(&self) -> (text: String)
        ensures
            text@ == self.label(),
    {
        match self {
            DeferredReason::GammaBelowMin => "gamma below gamma_min".to_owned(),
            DeferredReason::GammaAboveMax => "gamma above gamma_max".to_owned(),
            DeferredReason::EtaBelowFloor => "eta below eta_floor".to_owned(),
            DeferredReason::UnsoundConfigOrInput => "unsound config or NaN input".to_owned(),
        }
    }
}

/// The verdict is `Safe` exactly for the actions that are allowed.
pub proof fn lemma_verdict(
    config: ConservationConfig,
    gamma: Binary64,
    eta: Binary64,
    delta_gamma: Binary64,
    delta_eta: Binary64,
)
    ensures
        config.verdict(gamma, eta, delta_gamma, delta_eta) is Safe <==> config.allows(
            gamma,
            eta,
            delta_gamma,
            delta_eta,
        ),
{
}

/// The stable region: gamma at least `gamma_min` and at most `gamma_max`, eta at
/// least `eta_floor`, all of them numbers.
pub proof fn lemma_region(config: ConservationConfig, gamma: Binary64, eta: Binary64)
    ensures
        config.contains(gamma, eta) <==> {
            &&& !config.gamma_min.nan_spec() && !config.gamma_max.nan_spec()
            &&& !config.eta_floor.nan_spec() && !gamma.nan_spec() && !eta.nan_spec()
            &&& config.gamma_min.value() <= gamma.value() <= config.gamma_max.value()
            &&& config.eta_floor.value() <= eta.value()
        },
{
}

/// An action is allowed exactly if what it leads to, gamma and eta plus their
/// deltas, lies within the bounds.
pub proof fn lemma_allowed(
    config: ConservationConfig,
    gamma: Binary64,
    eta: Binary64,
    delta_gamma: Binary64,
    delta_eta: Binary64,
)
    ensures
        config.allows(gamma, eta, delta_gamma, delta_eta) <==> {
            &&& !config.gamma_min.nan_spec() && !config.gamma_max.nan_spec()
            &&& !config.eta_floor.nan_spec()
            &&& !gamma.plus(delta_gamma).nan_spec() && !eta.plus(delta_eta).nan_spec()
            &&& config.gamma_min.value() <= gamma.plus(delta_gamma).value()
            &&& gamma.plus(delta_gamma).value() <= config.gamma_max.value()
            &&& config.eta_floor.value() <= eta.plus(delta_eta).value()
        },
{
}

/// A verdict tells the truth. A safe one gives the gamma, eta and C that the
/// action leads to. A deferred one gives the same, and names the first of the
/// three bounds that they breach. Where no bound can be named, because one of the
/// numbers is none or the range of gamma is inverted, it gives the current gamma,
/// eta and C and the floor of C.
pub proof fn lemma_verdict_is_true(
    config: ConservationConfig,
    gamma: Binary64,
    eta: Binary64,
    delta_gamma: Binary64,
    delta_eta: Binary64,
)
    ensures
        ({
            let new_gamma = gamma.plus(delta_gamma);
            let new_eta = eta.plus(delta_eta);
            let undecided = config.gamma_min.nan_spec() || config.gamma_max.nan_spec()
                || config.eta_floor.nan_spec() || config.gamma_min.value()
                > config.gamma_max.value() || gamma.nan_spec() || eta.nan_spec()
                || delta_gamma.nan_spec() || delta_eta.nan_spec();
            let below = !new_gamma.nan_spec() && new_gamma.value() < config.gamma_min.value();
            let above = !new_gamma.nan_spec() && new_gamma.value() > config.gamma_max.value();
            let lacking = !new_eta.nan_spec() && new_eta.value() < config.eta_floor.value();
            match config.verdict(gamma, eta, delta_gamma, delta_eta) {
                ConservationVerdict::Safe { gamma: g, eta: e, c } => {
                    &&& !undecided && !below && !above && !lacking
                    &&& !new_gamma.nan_spec() && !new_eta.nan_spec()
                    &&& g == new_gamma && e == new_eta && c == new_gamma.plus(new_eta)
                },
                ConservationVerdict::Deferred {
                    reason,
                    would_be_gamma,
                    would_be_eta,
                    would_be_c,
                    limit,
                } => match reason {
                    DeferredReason::GammaBelowMin => {
                        &&& !undecided && below
                        &&& would_be_gamma == new_gamma && would_be_eta == new_eta
                        &&& would_be_c == new_gamma.plus(new_eta) && limit == config.gamma_min
                    },
                    DeferredReason::GammaAboveMax => {
                        &&& !undecided && above
                        &&& would_be_gamma == new_gamma && would_be_eta == new_eta
                        &&& would_be_c == new_gamma.plus(new_eta) && limit == config.gamma_max
                    },
                    DeferredReason::EtaBelowFloor => {
                        &&& !undecided && !below && !above && lacking
                        &&& would_be_gamma == new_gamma && would_be_eta == new_eta
                        &&& would_be_c == new_gamma.plus(new_eta) && limit == config.eta_floor
                    },
                    DeferredReason::UnsoundConfigOrInput => {
                        &&& undecided || (!below && !above && !lacking && (new_gamma.nan_spec()
                            || new_eta.nan_spec()))
                        &&& would_be_gamma == gamma && would_be_eta == eta
                        &&& would_be_c == gamma.plus(eta)
                        &&& limit == config.gamma_min.plus(config.eta_floor)
                    },
                },
            }
        }),
{
}

/// A config is sound exactly if its stable region is not empty: the lower ends
/// of the bounds lie in it.
pub proof fn lemma_sound_iff_region_not_empty(config: ConservationConfig)
    ensures
        config.sound() <==> exists|gamma: Binary64, eta: Binary64|
            #[trigger] config.contains(gamma, eta),
{
    if config.sound() {
        assert(config.contains(config.gamma_min, config.eta_floor));
    }
}

/// An unsound config defers every action.
pub proof fn lemma_unsound_defers_everything(
    config: ConservationConfig,
    gamma: Binary64,
    eta: Binary64,
    delta_gamma: Binary64,
    delta_eta: Binary64,
)
    requires
        !config.sound(),
    ensures
        config.verdict(gamma, eta, delta_gamma, delta_eta) is Deferred,
        !config.allows(gamma, eta, delta_gamma, delta_eta),
{
}

/// An input that is not a number is never treated as safe.
pub proof fn lemma_nan_defers(
    config: ConservationConfig,
    gamma: Binary64,
    eta: Binary64,
    delta_gamma: Binary64,
    delta_eta: Binary64,
)
    requires
        gamma.nan_spec() || eta.nan_spec() || delta_gamma.nan_spec() || delta_eta.nan_spec(),
    ensures
        config.obstacle(gamma, eta, delta_gamma, delta_eta) == Some(
            DeferredReason::UnsoundConfigOrInput,
        ),
        !config.allows(gamma, eta, delta_gamma, delta_eta),
{
}

/// An action that changes nothing is safe in every state of the stable region,
/// its borders included.
pub proof fn lemma_no_change_is_safe(config: ConservationConfig, gamma: Binary64, eta: Binary64)
    requires
        config.sound(),
        config.contains(gamma, eta),
    ensures
        config.allows(gamma, eta, Binary64::of_nat(0), Binary64::of_nat(0)),
{
    lemma_zero();
    binary64::lemma_sum_zero(gamma);
    binary64::lemma_sum_zero(eta);
}

/// What a safe action leaves has `C` at or above the implied floor, where both
/// are numbers.
pub proof fn lemma_safe_keeps_c_floor(
    config: ConservationConfig,
    gamma: Binary64,
    eta: Binary64,
    delta_gamma: Binary64,
    delta_eta: Binary64,
)
    requires
        config.allows(gamma, eta, delta_gamma, delta_eta),
        !config.gamma_min.plus(config.eta_floor).nan_spec(),
        !gamma.plus(delta_gamma).plus(eta.plus(delta_eta)).nan_spec(),
    ensures
        config.gamma_min.plus(config.eta_floor).le(
            gamma.plus(delta_gamma).plus(eta.plus(delta_eta)),
        ),
{
    binary64::lemma_sum_monotone(
        config.gamma_min,
        config.eta_floor,
        gamma.plus(delta_gamma),
        eta.plus(delta_eta),
    );
}

/// Under finite bounds on gamma the floor of `C`, and the `C` that a safe action
/// leaves, are numbers.
pub proof fn lemma_finite_gamma_gives_c(
    config: ConservationConfig,
    gamma: Binary64,
    eta: Binary64,
    delta_gamma: Binary64,
    delta_eta: Binary64,
)
    requires
        config.allows(gamma, eta, delta_gamma, delta_eta),
        config.gamma_min.finite_spec(),
        config.gamma_max.finite_spec(),
    ensures
        !config.gamma_min.plus(config.eta_floor).nan_spec(),
        !gamma.plus(delta_gamma).plus(eta.plus(delta_eta)).nan_spec(),
{
    let new_gamma = gamma.plus(delta_gamma);
    binary64::lemma_between_finite(config.gamma_min, new_gamma, config.gamma_max);
    binary64::lemma_sum_finite(config.gamma_min, config.eta_floor);
    binary64::lemma_sum_finite(new_gamma, eta.plus(delta_eta));
}

/// An action that is safe stays safe when eta has risen, so that a deferred
/// drain can be made safe by raising eta first.
pub proof fn lemma_more_eta_stays_safe(
    config: ConservationConfig,
    gamma: Binary64,
    eta: Binary64,
    risen: Binary64,
    delta_gamma: Binary64,
    delta_eta: Binary64,
)
    requires
        config.allows(gamma, eta, delta_gamma, delta_eta),
        eta.le(risen),
        !risen.plus(delta_eta).nan_spec(),
    ensures
        config.allows(gamma, risen, delta_gamma, delta_eta),
{
    assert(!delta_eta.nan_spec());
    binary64::lemma_sum_monotone(eta, delta_eta, risen, delta_eta);
}

/// The integer zero is the number zero.
pub proof fn lemma_zero()
    ensures
        Binary64::of_nat(0) == Binary64::zero(),
{
    assert(0 * pow2(1074) == 0);
    assert(rounding::magnitude(0) == 0);
    rounding::lemma_round_code_exact(0, 1);
}

/// The integer one is the number whose value is two to the power 1074 units.
proof fn lemma_one()
    ensures
        Binary64::of_nat(1).bits == 0x3FF0_0000_0000_0000,
        Binary64::of_nat(1).value() == pow2(1074),
        Binary64::of_nat(1).finite_spec(),
{
    let code: nat = 0x3FF0_0000_0000_0000;
    lemma_pow2_adds(52, 1022);
    lemma2_to64_rest();
    assert(1 * pow2(1074) == pow2(1074));
    assert(rounding::magnitude(code) == 0x10_0000_0000_0000 * pow2(1022));
    rounding::lemma_round_code_exact(code, 1);
}

/// The default bounds are sound, and a fleet at rest satisfies them: gamma zero
/// and eta zero lie in the region.
pub proof fn lemma_default_is_sound_and_permissive()
    ensures
        ConservationConfig::permissive().sound(),
        ConservationConfig::permissive().contains(Binary64::of_nat(0), Binary64::of_nat(0)),
{
    lemma_zero();
    lemma_one();
    lemma_pow2_pos(1074);
    assert(rounding::magnitude(0) == 0);
}

} // verus!
