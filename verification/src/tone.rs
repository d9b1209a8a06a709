use vstd::prelude::*;

use crate::render::WIDTH;
use vstd::arithmetic::div_mod::{
    lemma_div_is_ordered, lemma_div_multiples_vanish, lemma_hoist_over_denominator,
};
use vstd::arithmetic::mul::lemma_mul_inequality;

verus! {

pub const MIN_FREQ_MILLIHZ: u32 = 400000;

pub const MAX_FREQ_MILLIHZ: u32 = 1600000;

pub const FREQ_SPAN_MILLIHZ: u32 = 1200000;

/// Frequency, in millihertz, of the tone for a bar value: the value is
/// mapped linearly from `[1, num_bars]` onto `[400 Hz, 1600 Hz]`, rounded
/// down to the millihertz. A single bar (or none) gets the lowest
/// frequency, so the mapping never divides by zero.
pub open spec fn spec_tone_frequency_millihz(value: u32, num_bars: usize) -> int {
    if num_bars <= 1 {
        MIN_FREQ_MILLIHZ as int
    } else {
        MIN_FREQ_MILLIHZ + ((value as int) - 1) * (FREQ_SPAN_MILLIHZ as int) / ((num_bars as int)
            - 1)
    }
}

/// Pitch of the tone for one bar value, in millihertz.
pub fn tone_frequency_millihz(value: u32, num_bars: usize) -> (freq: u32)
    requires
        1 <= value,
        value as int <= num_bars as int,
    ensures
        freq as int == spec_tone_frequency_millihz(value, num_bars),
        MIN_FREQ_MILLIHZ <= freq <= MAX_FREQ_MILLIHZ,
{
    if num_bars <= 1 {
        MIN_FREQ_MILLIHZ
    } else {
        let v1: u64 = value as u64 - 1;
        proof {
            assert((v1 as int) * (FREQ_SPAN_MILLIHZ as int) <= 0xffffffff * 1200000)
                by (nonlinear_arith)
                requires
                    0 <= v1 as int <= 0xffffffff,
            ;
        }
        let numer: u64 = v1 * (FREQ_SPAN_MILLIHZ as u64);
        let denom: u64 = num_bars as u64 - 1;
        let off: u64 = numer / denom;
        proof {
            let s: int = FREQ_SPAN_MILLIHZ as int;
            let d: int = (num_bars as int) - 1;
            lemma_mul_inequality((value as int) - 1, d, s);
            lemma_div_is_ordered(((value as int) - 1) * s, d * s, d);
            lemma_div_multiples_vanish(s, d);
            assert(((value as int) - 1) * s >= 0) by (nonlinear_arith)
                requires
                    (value as int) - 1 >= 0,
                    s > 0,
            ;
        }
        MIN_FREQ_MILLIHZ + (off as u32)
    }
}

/// The pitch mapping is exact at the ends and strictly monotonic: with at
/// least two bars, value 1 maps to 400 Hz, value `num_bars` to 1600 Hz,
/// greater values map to strictly higher frequencies, and every value
/// strictly between the ends maps strictly inside the range.
pub proof fn lemma_tone_frequency_properties(num_bars: usize)
    requires
        2 <= num_bars <= WIDTH,
    ensures
        spec_tone_frequency_millihz(1, num_bars) == MIN_FREQ_MILLIHZ,
        spec_tone_frequency_millihz(num_bars as u32, num_bars) == MAX_FREQ_MILLIHZ,
        forall|v1: u32, v2: u32|
            1 <= v1 < v2 <= num_bars ==> spec_tone_frequency_millihz(v1, num_bars)
                < spec_tone_frequency_millihz(v2, num_bars),
        forall|v: u32|
            1 < v < num_bars ==> MIN_FREQ_MILLIHZ < #[trigger] spec_tone_frequency_millihz(
                v,
                num_bars,
            ) < MAX_FREQ_MILLIHZ,
{
    let s: int = FREQ_SPAN_MILLIHZ as int;
    let d: int = (num_bars as int) - 1;
    assert(0 * s == 0) by (nonlinear_arith);
    lemma_div_multiples_vanish(0, d);
    assert(d * 0 == 0) by (nonlinear_arith);
    assert(spec_tone_frequency_millihz(1, num_bars) == MIN_FREQ_MILLIHZ);
    lemma_div_multiples_vanish(s, d);
    assert(((num_bars as u32) as int) == num_bars as int);
    assert(spec_tone_frequency_millihz(num_bars as u32, num_bars) == MAX_FREQ_MILLIHZ);
    assert forall|v1: u32, v2: u32| 1 <= v1 < v2 <= num_bars implies spec_tone_frequency_millihz(
        v1,
        num_bars,
    ) < spec_tone_frequency_millihz(v2, num_bars) by {
        let a: int = ((v1 as int) - 1) * s;
        let b: int = ((v2 as int) - 1) * s;
        assert(b - a >= s) by (nonlinear_arith)
            requires
                a == ((v1 as int) - 1) * s,
                b == ((v2 as int) - 1) * s,
                (v2 as int) - (v1 as int) >= 1,
                s > 0,
        ;
        assert(s >= d);
        lemma_hoist_over_denominator(a, 1, d as nat);
        assert(a + 1 * d <= b);
        lemma_div_is_ordered(a + 1 * d, b, d);
    };
    assert forall|v: u32| 1 < v < num_bars implies MIN_FREQ_MILLIHZ
        < #[trigger] spec_tone_frequency_millihz(v, num_bars) < MAX_FREQ_MILLIHZ by {
        assert(spec_tone_frequency_millihz(1, num_bars) < spec_tone_frequency_millihz(
            v,
            num_bars,
        ));
        assert(spec_tone_frequency_millihz(v, num_bars) < spec_tone_frequency_millihz(
            num_bars as u32,
            num_bars,
        ));
    };
}

} // verus!
