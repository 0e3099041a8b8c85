//! The computational side of the audio pattern port: expanding the 1-bit
//! waveform into signed samples and sizing the sample stream for a
//! playback duration.  Band-limited synthesis and the audio device belong
//! to the external audio engine.

use vstd::prelude::*;
use crate::display::bit_of;

verus! {

/// The amplitude a set waveform bit maps to.
pub const BIT_AMPLITUDE: i16 = 10000;

/// Expands a 16-byte 1-bit waveform into 128 signed samples: each set bit
/// becomes a positive full-amplitude sample, each clear bit its negative.
pub fn expand_pattern_1bit(pattern: &[u8]) -> (r: Vec<i16>)
    requires
        pattern@.len() == 16,
    ensures
        r@.len() == 128,
        forall|t: int|
            0 <= t < 128 ==> #[trigger] r@[t] == (if bit_of(pattern@[t / 8], (t % 8) as u8) {
                BIT_AMPLITUDE as i16
            } else {
                (-BIT_AMPLITUDE) as i16
            }),
{
    proof {
        crate::display::lemma_bit_extract();
    }
    let mut r: Vec<i16> = Vec::new();
    let mut i: usize = 0;
    while i < 16
        invariant
            pattern@.len() == 16,
            i <= 16,
            r@.len() == 8 * i,
            forall|t: int|
                0 <= t < 8 * i ==> #[trigger] r@[t] == (if bit_of(
                    pattern@[t / 8],
                    (t % 8) as u8,
                ) {
                    BIT_AMPLITUDE as i16
                } else {
                    (-BIT_AMPLITUDE) as i16
                }),
        decreases 16 - i,
    {
        let b: u8 = pattern[i];
        let mut j: usize = 0;
        while j < 8
            invariant
                pattern@.len() == 16,
                i < 16,
                j <= 8,
                b == pattern@[i as int],
                r@.len() == 8 * i + j,
                forall|t: int|
                    0 <= t < 8 * i + j ==> #[trigger] r@[t] == (if bit_of(
                        pattern@[t / 8],
                        (t % 8) as u8,
                    ) {
                        BIT_AMPLITUDE as i16
                    } else {
                        (-BIT_AMPLITUDE) as i16
                    }),
            decreases 8 - j,
        {
            let sh: u8 = (7 - j) as u8;
            let bit: u8 = (b >> sh) & 1;
            proof {
                crate::display::lemma_bit_extract();
                let t = 8 * (i as int) + j;
                vstd::arithmetic::div_mod::lemma_fundamental_div_mod(t, 8);
                vstd::arithmetic::div_mod::lemma_mod_multiples_vanish(i as int, j as int, 8);
                vstd::arithmetic::div_mod::lemma_small_mod(j as nat, 8);
                assert(8 * (i as int) + j == (i as int) * 8 + j) by (nonlinear_arith);
                assert(t / 8 == i) by (nonlinear_arith)
                    requires
                        8 * (t / 8) + t % 8 == t,
                        t % 8 == j,
                        t == 8 * (i as int) + j,
                        0 <= j < 8,
                ;
            }
            if bit == 1 {
                r.push(BIT_AMPLITUDE);
            } else {
                r.push(-BIT_AMPLITUDE);
            }
            j += 1;
        }
        i += 1;
    }
    r
}

/// The number of input-rate samples a playback duration spans, truncated
/// to whole samples.
pub fn samples_needed(duration_micros: u64, fs_hz: u32) -> (r: u64)
    requires
        duration_micros < 0x1_0000_0000_0000,
    ensures
        r == duration_micros * fs_hz / 1_000_000,
{
    proof {
        assert((duration_micros as u128) * (fs_hz as u128) < 0x1_0000_0000_0000_0000_0000)
            by (nonlinear_arith)
            requires
                (duration_micros as u128) < 0x1_0000_0000_0000,
                (fs_hz as u128) < 0x1_0000_0000,
        ;
    }
    let prod: u128 = (duration_micros as u128) * (fs_hz as u128);
    proof {
        assert((duration_micros as int) * (fs_hz as int) <= (0xFFFF_FFFF_FFFF_FFFF as int)
            * 1_000_000) by (nonlinear_arith)
            requires
                duration_micros < 0x1_0000_0000_0000,
                fs_hz < 0x1_0000_0000,
        ;
        vstd::arithmetic::div_mod::lemma_div_is_ordered(
            duration_micros as int * fs_hz as int,
            1_000_000 * (0xFFFF_FFFF_FFFF_FFFF as int),
            1_000_000,
        );
        vstd::arithmetic::div_mod::lemma_div_multiples_vanish(
            0xFFFF_FFFF_FFFF_FFFF as int,
            1_000_000,
        );
        assert(duration_micros as int * fs_hz as int <= 1_000_000 * (
        0xFFFF_FFFF_FFFF_FFFF as int)) by (nonlinear_arith)
            requires
                duration_micros as int * fs_hz as int <= (0xFFFF_FFFF_FFFF_FFFF as int)
                    * 1_000_000,
        ;
    }
    (prod / 1_000_000) as u64
}

/// The number of samples fed to the synthesizer per frame: a fixed
/// 1.66-millisecond slice of the input rate.
pub fn frame_chunk_size(fs_hz: u32) -> (r: u32)
    ensures
        r == fs_hz * 166 / 100_000,
{
    let prod: u64 = (fs_hz as u64) * 166;
    proof {
        assert((fs_hz as int) * 166 <= 100_000 * (0xFFFF_FFFF as int)) by (nonlinear_arith)
            requires
                fs_hz < 0x1_0000_0000,
        ;
        vstd::arithmetic::div_mod::lemma_div_is_ordered(
            fs_hz as int * 166,
            100_000 * (0xFFFF_FFFF as int),
            100_000,
        );
        vstd::arithmetic::div_mod::lemma_div_multiples_vanish(0xFFFF_FFFF as int, 100_000);
    }
    (prod / 100_000) as u32
}

} // verus!
