//! Procedural heightfield terrain meshes: a flat grid of quad faces is
//! displaced by a fractal noise map, per-face geometric normals are
//! recomputed, and the result is laid out as records of a textual mesh
//! interchange format.
//!
//! All values are carried in fixed-point scalars (`scalar::SCALE` units
//! per world unit), so every construction, displacement, normal and
//! export step is exact integer arithmetic with a proved contract. Only
//! the coherent-noise primitive itself lives outside: callers sample it
//! per pixel and octave, convert the `[-1, 1]` samples to fixed point,
//! and hand them to [`generate_noise_map`].

pub mod meshes;
pub mod scalar;

use vstd::prelude::*;
use vstd::arithmetic::div_mod::{
    lemma_basic_div, lemma_div_is_ordered, lemma_div_multiples_vanish, lemma_div_pos_is_pos,
    lemma_fundamental_div_mod, lemma_mod_bound,
};
use vstd::arithmetic::power2::{lemma2_to64, lemma_pow2_pos, lemma_pow2_strictly_increases, lemma_pow2_unfold, pow2};
use crate::scalar::SCALE;

verus! {

/// Contribution of octave `k` (zero-based) to a pixel's raw fractal
/// value: the sample `s` in `[-SCALE, SCALE]` is shifted to the
/// non-negative range `[0, 2 * SCALE]` and weighted by the octave's
/// amplitude `2^-(k+1)`.
pub open spec fn octave_term(s: int, k: nat) -> int {
    (SCALE as int + s) / pow2((k + 1) as nat) as int
}

/// Raw fractal value of one pixel: the sum of its octave terms, each
/// octave at half the previous amplitude.
pub open spec fn fractal_raw(samples: Seq<i64>) -> int
    decreases samples.len(),
{
    if samples.len() == 0 {
        0
    } else {
        fractal_raw(samples.drop_last()) + octave_term(
            samples.last() as int,
            (samples.len() - 1) as nat,
        )
    }
}

/// Greatest raw fractal value over all pixels, starting from zero as
/// the running maximum does.
pub open spec fn max_raw(chunks: Seq<Vec<i64>>) -> int
    decreases chunks.len(),
{
    if chunks.len() == 0 {
        0
    } else {
        let m = max_raw(chunks.drop_last());
        let v = fractal_raw(chunks.last()@);
        if v > m {
            v
        } else {
            m
        }
    }
}

/// The value a pixel gets after normalization: raw values are scaled so
/// the maximum becomes exactly `SCALE`; a map whose every pixel is zero
/// is left unchanged.
pub open spec fn normalized_value(raw: int, max: int) -> int {
    if max > 0 {
        raw * (SCALE as int) / max
    } else {
        raw
    }
}

/// Raw fractal values are non-negative and never reach `2 * SCALE`:
/// the octave amplitudes halve, so the tail of the sum is bounded by
/// the first omitted amplitude.
pub proof fn lemma_fractal_raw_bounds(samples: Seq<i64>)
    requires
        forall|k: int| 0 <= k < samples.len() ==> -SCALE <= #[trigger] samples[k] <= SCALE,
    ensures
        0 <= fractal_raw(samples),
        fractal_raw(samples) + (2 * SCALE as int) / pow2(samples.len()) as int <= 2 * SCALE as int,
        fractal_raw(samples) <= 2 * SCALE as int,
    decreases samples.len(),
{
    let n = samples.len() as nat;
    lemma_pow2_pos(n);
    if n == 0 {
    } else {
        let prefix = samples.drop_last();
        lemma_fractal_raw_bounds(prefix);
        let s = samples.last() as int;
        let t = octave_term(s, (n - 1) as nat);
        lemma_pow2_pos((n - 1) as nat);
        lemma_div_pos_is_pos(SCALE as int + s, pow2(n) as int);
        lemma_div_is_ordered(SCALE as int + s, 2 * SCALE as int, pow2(n) as int);
        let d = pow2((n - 1) as nat) as int;
        let q = (2 * SCALE as int) / (2 * d);
        lemma_pow2_unfold(n);
        assert(pow2(n) as int == 2 * d);
        lemma_fundamental_div_mod(2 * SCALE as int, 2 * d);
        lemma_mod_bound(2 * SCALE as int, 2 * d);
        assert(2 * SCALE as int >= (2 * d) * q);
        assert((2 * d) * q == d * (2 * q)) by (nonlinear_arith);
        lemma_div_is_ordered(d * (2 * q), 2 * SCALE as int, d);
        lemma_div_multiples_vanish(2 * q, d);
    }
}

/// Every pixel's raw value is at most the running maximum.
pub proof fn lemma_raw_le_max(chunks: Seq<Vec<i64>>, p: int)
    requires
        0 <= p < chunks.len(),
    ensures
        fractal_raw(chunks[p]@) <= max_raw(chunks),
    decreases chunks.len(),
{
    if p == chunks.len() - 1 {
    } else {
        lemma_raw_le_max(chunks.drop_last(), p);
        assert(chunks.drop_last()[p] == chunks[p]);
    }
}

/// The running maximum is zero, or it is attained by some pixel.
pub proof fn lemma_max_raw_attained(chunks: Seq<Vec<i64>>)
    ensures
        max_raw(chunks) == 0 || exists|p: int|
            0 <= p < chunks.len() && fractal_raw(#[trigger] chunks[p]@) == max_raw(chunks),
    decreases chunks.len(),
{
    if chunks.len() > 0 {
        let m = max_raw(chunks.drop_last());
        let v = fractal_raw(chunks.last()@);
        if v > m {
            assert(chunks[chunks.len() - 1]@ == chunks.last()@);
        } else {
            lemma_max_raw_attained(chunks.drop_last());
            if m != 0 {
                let p = choose|p: int|
                    0 <= p < chunks.drop_last().len() && fractal_raw(
                        #[trigger] chunks.drop_last()[p]@,
                    ) == m;
                assert(chunks.drop_last()[p] == chunks[p]);
                assert(fractal_raw(chunks[p]@) == max_raw(chunks));
            }
        }
    }
}

/// Raw fractal value of one pixel, summed exactly as the octave
/// amplitudes prescribe: each term is the shifted sample divided by the
/// doubling power of two, and octaves too deep for the fixed-point
/// resolution contribute nothing.
#[verifier::loop_isolation(false)]
fn fractal_sum(samples: &Vec<i64>) -> (total: i64)
    requires
        forall|k: int| 0 <= k < samples@.len() ==> -SCALE <= #[trigger] samples@[k] <= SCALE,
    ensures
        total as int == fractal_raw(samples@),
        0 <= total as int <= 2 * SCALE as int,
{
    let n: usize = samples.len();
    let mut total: i64 = 0;
    let mut divisor: i64 = 2;
    let mut k: usize = 0;
    proof {
        lemma2_to64();
    }
    while k < n
        invariant
            k <= n,
            total as int == fractal_raw(samples@.take(k as int)),
            0 <= total as int <= 2 * SCALE as int,
            k <= 16 ==> divisor as int == pow2((k + 1) as nat) as int,
            2 <= divisor <= 131072,
        decreases n - k,
    {
        let s: i64 = samples[k];
        let term: i64 = if k <= 16 {
            ((SCALE + s) as u64 / (divisor as u64)) as i64
        } else {
            0
        };
        proof {
            let ghost taken = samples@.take(k as int + 1);
            assert(taken.drop_last() =~= samples@.take(k as int));
            assert(taken.last() == samples@[k as int]);
            lemma_pow2_pos((k + 1) as nat);
            if k <= 16 {
                lemma_div_pos_is_pos(SCALE as int + s as int, divisor as int);
                lemma_div_is_ordered(
                    SCALE as int + s as int,
                    2 * SCALE as int,
                    divisor as int,
                );
            } else {
                lemma_pow2_strictly_increases(17, (k + 1) as nat);
                lemma_basic_div(SCALE as int + s as int, pow2((k + 1) as nat) as int);
            }
            lemma_fractal_raw_bounds(taken);
        }
        total = total + term;
        if k < 16 {
            proof {
                lemma_pow2_unfold((k + 2) as nat);
            }
            divisor = divisor * 2;
        }
        k = k + 1;
    }
    proof {
        assert(samples@.take(n as int) =~= samples@);
    }
    total
}

/// Synthesizes the fractal noise map. `octave_samples` holds, for each
/// pixel in row-major order, the `num_layers` coherent-noise samples of
/// that pixel, one per octave, as fixed-point values in
/// `[-SCALE, SCALE]`; the caller draws octave `k`'s sample at double
/// the spatial frequency of octave `k - 1` (pixel-center coordinates
/// scaled by the frequency divider). The result sums the octaves at
/// halving amplitude and rescales all pixels so the greatest value is
/// exactly `SCALE`, standing for one; a map whose every pixel sums to
/// zero is returned as is.
#[verifier::loop_isolation(false)]
pub fn generate_noise_map(
    octave_samples: &Vec<Vec<i64>>,
    image_width: u32,
    image_height: u32,
    num_layers: u32,
) -> (chunk: Vec<i64>)
    requires
        octave_samples@.len() == (image_width as int) * (image_height as int),
        forall|p: int|
            0 <= p < octave_samples@.len() ==> (#[trigger] octave_samples@[p])@.len()
                == num_layers as int,
        forall|p: int, k: int|
            0 <= p < octave_samples@.len() && 0 <= k < octave_samples@[p]@.len() ==> -SCALE
                <= #[trigger] octave_samples@[p]@[k] <= SCALE,
    ensures
        chunk@.len() == octave_samples@.len(),
        forall|p: int|
            0 <= p < chunk@.len() ==> #[trigger] chunk@[p] as int == normalized_value(
                fractal_raw(octave_samples@[p]@),
                max_raw(octave_samples@),
            ),
        forall|p: int| 0 <= p < chunk@.len() ==> 0 <= #[trigger] chunk@[p] <= SCALE,
        max_raw(octave_samples@) > 0 ==> exists|p: int|
            0 <= p < chunk@.len() && #[trigger] chunk@[p] == SCALE,
{
    let n: usize = octave_samples.len();
    let mut raw: Vec<i64> = Vec::new();
    let mut max_val: i64 = 0;
    let mut p: usize = 0;
    while p < n
        invariant
            p <= n,
            raw@.len() == p,
            forall|q: int|
                0 <= q < p ==> #[trigger] raw@[q] as int == fractal_raw(octave_samples@[q]@),
            forall|q: int| 0 <= q < p ==> 0 <= #[trigger] raw@[q] <= 2 * SCALE,
            max_val as int == max_raw(octave_samples@.take(p as int)),
            0 <= max_val <= 2 * SCALE,
        decreases n - p,
    {
        let row: &Vec<i64> = &octave_samples[p];
        let f: i64 = fractal_sum(row);
        proof {
            let ghost taken = octave_samples@.take(p as int + 1);
            assert(taken.drop_last() =~= octave_samples@.take(p as int));
            assert(taken.last() == octave_samples@[p as int]);
        }
        if f > max_val {
            max_val = f;
        }
        raw.push(f);
        p = p + 1;
    }
    proof {
        assert(octave_samples@.take(n as int) =~= octave_samples@);
    }
    let ghost max_ghost = max_raw(octave_samples@);
    let mut chunk: Vec<i64> = Vec::new();
    let mut q: usize = 0;
    while q < n
        invariant
            q <= n,
            chunk@.len() == q,
            forall|r: int|
                0 <= r < q ==> #[trigger] chunk@[r] as int == normalized_value(
                    fractal_raw(octave_samples@[r]@),
                    max_ghost,
                ),
            forall|r: int| 0 <= r < q ==> 0 <= #[trigger] chunk@[r] <= SCALE,
        decreases n - q,
    {
        let v: i64 = raw[q];
        proof {
            lemma_raw_le_max(octave_samples@, q as int);
        }
        let out: i64 = if max_val > 0 {
            proof {
                crate::scalar::lemma_scaled_div_bounds(v as int, max_val as int);
            }
            ((v as u64) * 65536 / (max_val as u64)) as i64
        } else {
            v
        };
        chunk.push(out);
        q = q + 1;
    }
    proof {
        lemma_max_raw_attained(octave_samples@);
        if max_ghost > 0 {
            let witness = choose|p: int|
                0 <= p < octave_samples@.len() && fractal_raw(#[trigger] octave_samples@[p]@)
                    == max_ghost;
            crate::scalar::lemma_scaled_div_bounds(max_ghost, max_ghost);
            assert(chunk@[witness] == SCALE);
        }
    }
    chunk
}

} // verus!
