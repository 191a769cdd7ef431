//! Per-channel value conditioning: the two-regime smoother and the
//! debounce gate before the audio subsystem is called.

use vstd::prelude::*;
use crate::num::UNIT;

verus! {

/// Snap threshold: a move of at least this size is emitted unchanged.
pub const SNAP: u64 = 80_000;

/// Numerator of the low-pass gain applied to sub-threshold moves.
pub const GAIN_NUM: u64 = 35;

/// Denominator of the low-pass gain.
pub const GAIN_DEN: u64 = 100;

/// Debounce epsilon: a change smaller than this is not applied.
pub const EPS: u64 = 5_000;

/// The smoother's answer to input `x` with last emitted value `last`:
/// a move of at least `SNAP` passes unchanged, a smaller one is damped
/// by the fixed gain.
pub open spec fn smooth_spec(last: int, x: int) -> int {
    if x >= last {
        if x - last >= SNAP as int {
            x
        } else {
            last + (x - last) * (GAIN_NUM as int) / (GAIN_DEN as int)
        }
    } else {
        if last - x >= SNAP as int {
            x
        } else {
            last - (last - x) * (GAIN_NUM as int) / (GAIN_DEN as int)
        }
    }
}

/// The smoothed value always lies between the old value and the input.
pub proof fn lemma_smooth_bounds(last: int, x: int)
    ensures
        x >= last ==> last <= smooth_spec(last, x) <= x,
        x <= last ==> x <= smooth_spec(last, x) <= last,
{
    if x >= last {
        let d = x - last;
        if d < SNAP as int {
            assert(0 <= d * (GAIN_NUM as int) / (GAIN_DEN as int)) by {
                vstd::arithmetic::div_mod::lemma_div_pos_is_pos(
                    d * (GAIN_NUM as int),
                    GAIN_DEN as int,
                );
            }
            assert(d * (GAIN_NUM as int) / (GAIN_DEN as int) <= d) by {
                vstd::arithmetic::div_mod::lemma_div_is_ordered(
                    d * (GAIN_NUM as int),
                    d * (GAIN_DEN as int),
                    GAIN_DEN as int,
                );
                vstd::arithmetic::div_mod::lemma_div_multiples_vanish(d, GAIN_DEN as int);
            }
        }
    } else {
        let d = last - x;
        if d < SNAP as int {
            assert(0 <= d * (GAIN_NUM as int) / (GAIN_DEN as int)) by {
                vstd::arithmetic::div_mod::lemma_div_pos_is_pos(
                    d * (GAIN_NUM as int),
                    GAIN_DEN as int,
                );
            }
            assert(d * (GAIN_NUM as int) / (GAIN_DEN as int) <= d) by {
                vstd::arithmetic::div_mod::lemma_div_is_ordered(
                    d * (GAIN_NUM as int),
                    d * (GAIN_DEN as int),
                    GAIN_DEN as int,
                );
                vstd::arithmetic::div_mod::lemma_div_multiples_vanish(d, GAIN_DEN as int);
            }
        }
    }
}

/// One low-pass filter: holds the last emitted value of its channel.
#[derive(Clone, Copy, Debug)]
pub struct Smoother {
    pub last_value: u64,
}

impl Smoother {
    pub fn new() -> (r: Smoother)
        ensures
            r.last_value == 0,
    {
        Smoother { last_value: 0 }
    }

    /// Feeds one normalized value through the filter and stores the
    /// emitted value.
    pub fn process(&mut self, x: u64) -> (r: u64)
        requires
            old(self).last_value <= UNIT,
            x <= UNIT,
        ensures
            r == smooth_spec(old(self).last_value as int, x as int),
            final(self).last_value == r,
            r <= UNIT,
    {
        proof {
            lemma_smooth_bounds(self.last_value as int, x as int);
        }
        let last = self.last_value;
        let r: u64 = if x >= last {
            let d = x - last;
            if d >= SNAP {
                x
            } else {
                last + d * GAIN_NUM / GAIN_DEN
            }
        } else {
            let d = last - x;
            if d >= SNAP {
                x
            } else {
                last - d * GAIN_NUM / GAIN_DEN
            }
        };
        self.last_value = r;
        r
    }
}

/// The debounce gate: a smoothed value is applied when no value was ever
/// applied, or when it differs from the last applied value by at least
/// the epsilon.
pub open spec fn should_apply(last_applied: Option<u64>, v: int) -> bool {
    match last_applied {
        Option::None => true,
        Option::Some(a) => v - a >= EPS as int || a - v >= EPS as int,
    }
}

/// The whole runtime state of one channel: its smoother and the value
/// last handed to the audio subsystem.
#[derive(Clone, Copy, Debug)]
pub struct ChannelState {
    pub smoother: Smoother,
    pub last_applied: Option<u64>,
}

impl ChannelState {
    pub open spec fn wf(self) -> bool {
        &&& self.smoother.last_value <= UNIT
        &&& self.last_applied matches Option::Some(a) ==> a <= UNIT
    }

    /// The state a channel starts in, and returns to when the link
    /// signature changes.
    pub open spec fn initial() -> ChannelState {
        ChannelState { smoother: Smoother { last_value: 0 }, last_applied: Option::None }
    }

    pub fn fresh() -> (r: ChannelState)
        ensures
            r == ChannelState::initial(),
    {
        ChannelState { smoother: Smoother::new(), last_applied: Option::None }
    }
}

/// The channel state after one normalized input.
pub open spec fn step_state(st: ChannelState, x: int) -> ChannelState {
    let sm = smooth_spec(st.smoother.last_value as int, x);
    ChannelState {
        smoother: Smoother { last_value: sm as u64 },
        last_applied: if should_apply(st.last_applied, sm) {
            Option::Some(sm as u64)
        } else {
            st.last_applied
        },
    }
}

/// The value one normalized input sends to the audio subsystem, if any.
pub open spec fn step_emits(st: ChannelState, x: int) -> Option<u64> {
    let sm = smooth_spec(st.smoother.last_value as int, x);
    if should_apply(st.last_applied, sm) {
        Option::Some(sm as u64)
    } else {
        Option::None
    }
}

/// Smooths one normalized input, passes it through the debounce check,
/// and records it as applied when the change is large enough.
pub fn channel_step(st: &mut ChannelState, x: u64) -> (r: Option<u64>)
    requires
        old(st).wf(),
        x <= UNIT,
    ensures
        *final(st) == step_state(*old(st), x as int),
        r == step_emits(*old(st), x as int),
        final(st).wf(),
{
    proof {
        lemma_smooth_bounds(st.smoother.last_value as int, x as int);
    }
    let sm = st.smoother.process(x);
    let apply = match st.last_applied {
        Option::None => true,
        Option::Some(a) => sm >= a && sm - a >= EPS || a >= sm && a - sm >= EPS,
    };
    if apply {
        st.last_applied = Some(sm);
        Some(sm)
    } else {
        None
    }
}

/// Debounce law: when an input makes a channel apply a value, and the next
/// input smooths to within the epsilon of it, the second input makes no
/// audio call at all.
pub proof fn lemma_debounce(st: ChannelState, x1: int, x2: int)
    requires
        step_emits(st, x1) is Some,
        ({
            let v1 = step_emits(st, x1)->0 as int;
            let sm2 = smooth_spec(step_state(st, x1).smoother.last_value as int, x2);
            sm2 - v1 < EPS as int && v1 - sm2 < EPS as int
        }),
    ensures
        step_emits(step_state(st, x1), x2) is None,
{
}

} // verus!
