//! Controller: the per-device decision core of the control loop.
//!
//! Each cycle the caller polls the signal sources and the device's current
//! raw brightness, hands them in, and performs whatever `CycleAction` comes
//! back.  The controller itself never touches a device: it quantizes the
//! readings, detects a foreign brightness change (a user correction) by
//! comparing the device's current value against what it last applied, feeds
//! the correction into the profile under the *previous* cycle's state key
//! (the state the user was reacting to), predicts a brightness for the new
//! key, and applies hysteresis so a prediction close to the last applied
//! value causes no write.  A cycle whose readings or device value are
//! unavailable changes nothing and is retried by the caller next cycle.

use crate::profile::{abs_diff, is_nearest, update_rel, Profile};
use crate::quantize::{quantize, quantize_spec, reading_wf, Reading, StateKey};
use vstd::arithmetic::div_mod::lemma_div_is_ordered;
use vstd::prelude::*;

verus! {

/// Brightness values inside the profile are raw device units scaled by this,
/// so the moving average can make progress on coarse-grained devices.
pub const MILLIS_PER_RAW: u64 = 1000;

/// What the caller must do with the device after one cycle.
#[derive(Clone, Copy, Debug, PartialEq, Eq, Structural)]
pub enum CycleAction {
    /// A reading or the device value was unavailable: nothing was decided.
    Skipped,
    /// The prediction is within the hysteresis band: issue no device write.
    Held,
    /// Write this raw value to the device.
    Applied(u64),
}

/// The bucket vector of a remembered state key (empty when none).
pub open spec fn key_of(k: Option<StateKey>) -> Seq<u32> {
    match k {
        Some(s) => s.buckets@,
        None => Seq::empty(),
    }
}

/// The device's current value counts as a user override when the controller
/// has both written before and remembered the state it wrote in, and the
/// value now differs from what it last applied by more than the tolerance.
pub open spec fn override_detected(s: Controller, current_raw: u64) -> bool {
    match (s.last_applied_raw, s.last_key) {
        (Some(l), Some(_k)) => abs_diff(current_raw as int, l as int)
            > s.override_tolerance_raw as int,
        _ => false,
    }
}

/// A raw observation expressed in profile units.
pub open spec fn correction_millis(c: u64) -> u64 {
    (c as int * MILLIS_PER_RAW as int) as u64
}

/// `pm` is what the profile predicts for `key`: the value of the nearest
/// entry, or the configured default when nothing has been learned yet.
pub open spec fn prediction_of(p: Profile, key: Seq<u32>, default_millis: u64, pm: u64) -> bool {
    if p.entries@.len() == 0 {
        pm == default_millis
    } else {
        exists|j: int| #[trigger] is_nearest(p.entries@, key, j) && pm == p.entries@[j].value
    }
}

/// Profile units rounded to the nearest raw unit.
pub open spec fn round_to_raw(pm: u64) -> int {
    pm as int / (MILLIS_PER_RAW as int) + if pm as int % (MILLIS_PER_RAW as int) >= (
    MILLIS_PER_RAW as int) / 2 {
        1int
    } else {
        0int
    }
}

/// `v` clamped into the device's valid output range `[1, max]`.
pub open spec fn clamp_spec(v: int, max: int) -> int {
    if v < 1 {
        1
    } else if v > max {
        max
    } else {
        v
    }
}

/// The raw value a prediction turns into: rounded, then clamped.
pub open spec fn target_raw_spec(pm: u64, max: u64) -> int {
    clamp_spec(round_to_raw(pm), max as int)
}

/// The hysteresis rule: write on the first cycle, afterwards only when the
/// target strays from the baseline by more than the threshold.
pub open spec fn should_write(base: Option<u64>, target: int, hysteresis: u64) -> bool {
    match base {
        None => true,
        Some(b) => abs_diff(target, b as int) > hysteresis as int,
    }
}

/// Per-device control state: the learned profile, the device's parameters,
/// and what the previous cycle applied and saw.
#[derive(Clone, Debug)]
pub struct Controller {
    /// The device's learned profile.
    pub profile: Profile,
    /// Top of the device's raw range (its reported maximum), at least 1.
    pub max_raw: u64,
    /// Prediction used while the profile is still empty, in profile units.
    pub default_millis: u64,
    /// A device value within this distance of the last applied value is the
    /// controller's own write (or jitter), not a user correction.
    pub override_tolerance_raw: u64,
    /// Minimum distance between target and baseline before a write is issued.
    pub hysteresis_raw: u64,
    /// The raw value this controller last applied (or adopted from a user
    /// correction); `None` until the first write.
    pub last_applied_raw: Option<u64>,
    /// The state key of the previous cycle, the one corrections attribute to.
    pub last_key: Option<StateKey>,
}

impl Controller {
    /// Internal invariant.
    pub open spec fn wf(self) -> bool {
        &&& self.profile.wf()
        &&& self.max_raw >= 1
        &&& self.max_raw as int * MILLIS_PER_RAW as int <= u64::MAX as int
        &&& match self.last_applied_raw {
            Some(v) => 1 <= v <= self.max_raw,
            None => true,
        }
        &&& match self.last_key {
            Some(k) => k.buckets@.len() == self.profile.bucket_counts@.len(),
            None => true,
        }
    }

    /// Builds the controller for one device; rejects a raw range the profile
    /// units cannot express and a default outside the valid range.
    pub fn new(
        profile: Profile,
        max_raw: u64,
        default_raw: u64,
        override_tolerance_raw: u64,
        hysteresis_raw: u64,
    ) -> (r: Option<Controller>)
        requires
            profile.wf(),
        ensures
            match r {
                Some(c) => {
                    &&& c.wf()
                    &&& c.profile == profile
                    &&& c.max_raw == max_raw
                    &&& c.default_millis == correction_millis(default_raw)
                    &&& c.override_tolerance_raw == override_tolerance_raw
                    &&& c.hysteresis_raw == hysteresis_raw
                    &&& c.last_applied_raw is None
                    &&& c.last_key is None
                },
                None => !(1 <= max_raw && max_raw as int * MILLIS_PER_RAW as int <= u64::MAX as int
                    && 1 <= default_raw <= max_raw),
            },
    {
        if 1 <= max_raw && max_raw <= u64::MAX / MILLIS_PER_RAW && 1 <= default_raw && default_raw
            <= max_raw {
            proof {
                assert(max_raw as int * MILLIS_PER_RAW as int <= u64::MAX as int) by (nonlinear_arith)
                    requires
                        max_raw as int <= u64::MAX as int / (MILLIS_PER_RAW as int),
                        MILLIS_PER_RAW as int > 0,
                ;
            }
            Some(
                Controller {
                    profile,
                    max_raw,
                    default_millis: default_raw * MILLIS_PER_RAW,
                    override_tolerance_raw,
                    hysteresis_raw,
                    last_applied_raw: None,
                    last_key: None,
                },
            )
        } else {
            proof {
                if max_raw as int * MILLIS_PER_RAW as int <= u64::MAX as int {
                    lemma_div_is_ordered(
                        max_raw as int * MILLIS_PER_RAW as int,
                        u64::MAX as int,
                        MILLIS_PER_RAW as int,
                    );
                    assert(max_raw as int * MILLIS_PER_RAW as int / (MILLIS_PER_RAW as int)
                        == max_raw as int) by (nonlinear_arith);
                }
            }
            None
        }
    }

    /// One control cycle.  `readings` and `current_raw` are what the caller
    /// polled this cycle (`None` on a failed poll).  The returned action is
    /// performed by the caller; `Applied(v)` always carries a raw value in
    /// `[1, max_raw]`.
    pub fn cycle(&mut self, readings: Option<Vec<Reading>>, current_raw: Option<u64>) -> (action:
        CycleAction)
        requires
            old(self).wf(),
            match readings {
                Some(rs) => rs@.len() == old(self).profile.bucket_counts@.len() && forall|i: int|
                    0 <= i < rs@.len() ==> reading_wf(
                        rs@[i],
                        old(self).profile.bucket_counts@[i],
                    ),
                None => true,
            },
            match current_raw {
                Some(c) => 1 <= c <= old(self).max_raw,
                None => true,
            },
        ensures
            final(self).wf(),
            final(self).max_raw == old(self).max_raw,
            final(self).default_millis == old(self).default_millis,
            final(self).override_tolerance_raw == old(self).override_tolerance_raw,
            final(self).hysteresis_raw == old(self).hysteresis_raw,
            (action is Skipped) <==> (readings is None || current_raw is None),
            action is Skipped ==> *final(self) == *old(self),
            match action {
                CycleAction::Applied(v) => 1 <= v <= old(self).max_raw,
                _ => true,
            },
            match (readings, current_raw) {
                (Some(rs), Some(c)) => {
                    &&& key_of(final(self).last_key) == quantize_spec(
                        rs@,
                        old(self).profile.bucket_counts@,
                    )
                    &&& final(self).last_key is Some
                    &&& (override_detected(*old(self), c) ==> update_rel(
                        old(self).profile,
                        final(self).profile,
                        key_of(old(self).last_key),
                        correction_millis(c),
                    ))
                    &&& (!override_detected(*old(self), c) ==> final(self).profile == old(
                        self,
                    ).profile)
                    &&& exists|pm: u64|
                        #[trigger] prediction_of(
                            final(self).profile,
                            quantize_spec(rs@, old(self).profile.bucket_counts@),
                            old(self).default_millis,
                            pm,
                        ) && {
                            let base = if override_detected(*old(self), c) {
                                Some(c)
                            } else {
                                old(self).last_applied_raw
                            };
                            let target = target_raw_spec(pm, old(self).max_raw);
                            if should_write(base, target, old(self).hysteresis_raw) {
                                &&& action == CycleAction::Applied(target as u64)
                                &&& final(self).last_applied_raw == Some(target as u64)
                            } else {
                                &&& action is Held
                                &&& final(self).last_applied_raw == base
                            }
                        }
                },
                _ => true,
            },
    {
        if readings.is_none() || current_raw.is_none() {
            return CycleAction::Skipped;
        }
        let rs = readings.unwrap();
        let c = current_raw.unwrap();
        // Override detection against what this controller last applied.
        let mut did_override = false;
        if self.last_key.is_some() {
            if let Some(last) = self.last_applied_raw {
                let gap: u64 = if c >= last {
                    c - last
                } else {
                    last - c
                };
                if gap > self.override_tolerance_raw {
                    did_override = true;
                }
            }
        }
        if did_override {
            // The user was reacting to the previous cycle's state: learn the
            // corrected value under that key, not the current one.
            let obs_millis: u64 = c * MILLIS_PER_RAW;
            match &self.last_key {
                Some(prev) => {
                    self.profile.update(prev, obs_millis);
                },
                None => {},
            }
        }
        proof {
            assert(self.profile.bucket_counts@ == old(self).profile.bucket_counts@);
            assert(forall|i: int|
                0 <= i < rs@.len() ==> reading_wf(rs@[i], self.profile.bucket_counts@[i]));
        }
        let key = quantize(&rs, &self.profile.bucket_counts);
        let pm: u64 = match self.profile.predict(&key) {
            Some(v) => v,
            None => self.default_millis,
        };
        proof {
            assert(prediction_of(
                self.profile,
                quantize_spec(rs@, old(self).profile.bucket_counts@),
                old(self).default_millis,
                pm,
            ));
        }
        // Round the prediction to raw units, then clamp into [1, max].
        let mut target: u64 = pm / MILLIS_PER_RAW;
        proof {
            lemma_div_is_ordered(pm as int, u64::MAX as int, MILLIS_PER_RAW as int);
        }
        if pm % MILLIS_PER_RAW >= MILLIS_PER_RAW / 2 {
            target = target + 1;
        }
        proof {
            assert(target as int == round_to_raw(pm));
        }
        let praw = crate::clamp_raw(target, self.max_raw);
        proof {
            assert(praw as int == target_raw_spec(pm, old(self).max_raw));
        }
        let base: Option<u64> = if did_override {
            Some(c)
        } else {
            self.last_applied_raw
        };
        self.last_key = Some(key);
        let write = match base {
            None => true,
            Some(b) => {
                let gap: u64 = if praw >= b {
                    praw - b
                } else {
                    b - praw
                };
                gap > self.hysteresis_raw
            },
        };
        let action_r = if write {
            self.last_applied_raw = Some(praw);
            CycleAction::Applied(praw)
        } else {
            self.last_applied_raw = base;
            CycleAction::Held
        };
        proof {
            let qs = quantize_spec(rs@, old(self).profile.bucket_counts@);
            let target_g = target_raw_spec(pm, old(self).max_raw);
            assert(write == should_write(base, target_g, old(self).hysteresis_raw));
            assert(prediction_of(self.profile, qs, old(self).default_millis, pm) && {
                let base2 = if override_detected(*old(self), c) {
                    Some(c)
                } else {
                    old(self).last_applied_raw
                };
                let target2 = target_raw_spec(pm, old(self).max_raw);
                if should_write(base2, target2, old(self).hysteresis_raw) {
                    action_r == CycleAction::Applied(target2 as u64) && self.last_applied_raw
                        == Some(target2 as u64)
                } else {
                    action_r is Held && self.last_applied_raw == base2
                }
            });
        }
        action_r
    }
}

/// A correction is absorbed exactly once: the cycle that attributes it also
/// adopts the user's value as its baseline, so as long as the device still
/// reads that value, no later cycle sees it as a fresh override.
pub proof fn lemma_override_attributed_once(s: Controller, c: u64)
    requires
        s.last_applied_raw == Some(c),
    ensures
        !override_detected(s, c),
{
}

} // verus!
