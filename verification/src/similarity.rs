//! Distance metrics and the order that each of them puts on scores.
//!
//! A score is an IEEE 754 single-precision value held by its bit pattern.
//! Every metric is reduced here, once, to a rank key for which smaller is
//! better, so that selection never has to look at the metric again.

use vstd::prelude::*;
use vstd::arithmetic::power2::{lemma_pow2_pos, lemma_pow2_strictly_increases, lemma_pow2_unfold, pow2};

verus! {

/// The metric by which a collection measures how close two vectors are.
#[derive(Clone, Copy, Debug, PartialEq, Eq, Structural)]
pub enum Distance {
    Euclidean,
    Cosine,
    DotProduct,
}

/// A candidate of a query: the score of the embedding at `index`.
#[derive(Clone, Copy, Debug)]
pub struct ScoreIndex {
    pub score: u32,
    pub index: usize,
}

/// Whether the bit pattern is a NaN: all exponent bits set, mantissa not zero.
pub open spec fn is_nan(bits: u32) -> bool {
    (bits & 0x7fff_ffff) > 0x7f80_0000
}

/// A key that grows with the numeric value of a pattern that is not a NaN.
/// Both zeros get the key of positive zero.
pub open spec fn ascending_key(bits: u32) -> u32 {
    if bits == 0x8000_0000 {
        0x8000_0000
    } else if bits & 0x8000_0000 != 0 {
        !bits
    } else {
        bits | 0x8000_0000
    }
}

/// The rank of a score under a metric; the smaller key is the better score.
/// A distance ranks by its value, a similarity by its negation, and a NaN
/// ranks last under every metric.
pub open spec fn rank_key(metric: Distance, bits: u32) -> u32 {
    if is_nan(bits) {
        u32::MAX
    } else {
        match metric {
            Distance::Euclidean => ascending_key(bits),
            Distance::Cosine => !ascending_key(bits),
            Distance::DotProduct => !ascending_key(bits),
        }
    }
}

impl Distance {
    /// Whether vectors are stored scaled to unit length, so that the cosine
    /// of two stored vectors is their dot product.
    pub open spec fn spec_stores_unit_vectors(self) -> bool {
        self == Distance::Cosine
    }

    #[verifier::when_used_as_spec(spec_stores_unit_vectors)]
    pub fn stores_unit_vectors(self) -> (r: bool)
        ensures
            r == (self == Distance::Cosine),
    {
        match self {
            Distance::Cosine => true,
            _ => false,
        }
    }

    /// Whether a larger score is the better one under this metric.
    pub fn larger_is_better(self) -> (r: bool)
        ensures
            r == (self != Distance::Euclidean),
    {
        match self {
            Distance::Euclidean => false,
            _ => true,
        }
    }

    /// The rank key of a score under this metric.
    pub fn key_of(self, bits: u32) -> (r: u32)
        ensures
            r == rank_key(self, bits),
    {
        if (bits & 0x7fff_ffff) > 0x7f80_0000 {
            u32::MAX
        } else {
            let up: u32 = if bits == 0x8000_0000 {
                0x8000_0000
            } else if bits & 0x8000_0000 != 0 {
                !bits
            } else {
                bits | 0x8000_0000
            };
            match self {
                Distance::Euclidean => up,
                _ => !up,
            }
        }
    }
}

impl ScoreIndex {
    /// The rank key of this candidate under a metric.
    pub open spec fn key(self, metric: Distance) -> u32 {
        rank_key(metric, self.score)
    }

    /// Whether this candidate is strictly better than `other`.
    pub fn better_than(&self, other: &ScoreIndex, metric: Distance) -> (r: bool)
        ensures
            r == (self.key(metric) < other.key(metric)),
    {
        metric.key_of(self.score) < metric.key_of(other.score)
    }
}

/// A score that is not a NaN never gets the key that a NaN gets.
pub proof fn lemma_nan_ranks_last(metric: Distance, bits: u32)
    ensures
        rank_key(metric, bits) == u32::MAX <==> is_nan(bits),
{
    assert(!((bits & 0x7fff_ffff) > 0x7f80_0000) ==> (bits | 0x8000_0000) != 0xffff_ffffu32
        && (bits & 0x8000_0000 != 0 ==> !bits != 0xffff_ffffu32 && !!bits != 0xffff_ffffu32)
        && !(bits | 0x8000_0000) != 0xffff_ffffu32) by (bit_vector);
    assert(!0x8000_0000u32 != 0xffff_ffffu32) by (bit_vector);
}

/// The pattern without its sign bit.
pub open spec fn magnitude_bits(bits: u32) -> u32 {
    bits & 0x7fff_ffff
}

/// The absolute value of a pattern that is not a NaN, in units of 2^-149,
/// the smallest positive value that a pattern has. With a biased exponent
/// of 0 the value is the fraction itself; otherwise the fraction gets its
/// leading 1 and is doubled once for each step of the exponent above 1.
/// An infinity gets a value above every finite one.
pub open spec fn magnitude(bits: u32) -> int {
    let exponent = magnitude_bits(bits) >> 23;
    let fraction = magnitude_bits(bits) & 0x7f_ffff;
    if exponent == 0 {
        fraction as int
    } else {
        (0x80_0000 + fraction) * pow2((exponent - 1) as nat)
    }
}

/// The value of a pattern that is not a NaN, in units of 2^-149.
pub open spec fn scaled_value(bits: u32) -> int {
    if bits & 0x8000_0000 != 0 {
        -magnitude(bits)
    } else {
        magnitude(bits)
    }
}

/// Of two patterns without a sign, the smaller one has the smaller value.
proof fn lemma_magnitude_grows(x: u32, y: u32)
    requires
        x < y <= 0x7f80_0000,
    ensures
        0 <= magnitude(x) < magnitude(y),
{
    let ex = x >> 23;
    let fx = x & 0x7f_ffff;
    let ey = y >> 23;
    let fy = y & 0x7f_ffff;
    assert(x & 0x7fff_ffff == x && y & 0x7fff_ffff == y) by (bit_vector)
        requires
            x < y <= 0x7f80_0000u32,
    ;
    assert(x == (x >> 23) * 0x80_0000 + (x & 0x7f_ffff) && (x & 0x7f_ffff) < 0x80_0000 && (x >> 23)
        < 256) by (bit_vector)
        requires
            x <= 0x7f80_0000u32,
    ;
    assert(y == (y >> 23) * 0x80_0000 + (y & 0x7f_ffff) && (y & 0x7f_ffff) < 0x80_0000 && (y >> 23)
        < 256) by (bit_vector)
        requires
            y <= 0x7f80_0000u32,
    ;
    let px: int = if ex == 0 { 1 } else { pow2((ex - 1) as nat) as int };
    let py: int = if ey == 0 { 1 } else { pow2((ey - 1) as nat) as int };
    if ex > 0 {
        lemma_pow2_pos((ex - 1) as nat);
    }
    if ey > 0 {
        lemma_pow2_pos((ey - 1) as nat);
    }
    assert(0 <= magnitude(x)) by (nonlinear_arith)
        requires
            magnitude(x) == if ex == 0 { fx as int } else { (0x80_0000 + fx) * px },
            px > 0,
            fx >= 0,
    ;
    if ex == ey {
        if ex > 0 {
            assert((0x80_0000 + fx) * px < (0x80_0000 + fy) * px) by (nonlinear_arith)
                requires
                    fx < fy,
                    px > 0,
            ;
        }
    } else {
        assert(ex < ey);
        // The value of `y` is at least 2^23 doubled `ey - 1` times.
        assert(0x80_0000 * py <= (0x80_0000 + fy) * py) by (nonlinear_arith)
            requires
                fy >= 0,
                py > 0,
        ;
        if ex == 0 {
            assert(0x80_0000 <= 0x80_0000 * py) by (nonlinear_arith)
                requires
                    py >= 1,
            ;
        } else {
            // The value of `x` is below 2^23 doubled `ex` times.
            lemma_pow2_unfold(ex as nat);
            assert(pow2(ex as nat) == 2 * px);
            if ex < ey - 1 {
                lemma_pow2_strictly_increases(ex as nat, (ey - 1) as nat);
            }
            assert(pow2(ex as nat) <= py);
            assert((0x80_0000 + fx) * px < 0x80_0000 * (2 * px)) by (nonlinear_arith)
                requires
                    fx < 0x80_0000,
                    px > 0,
            ;
            assert(0x80_0000 * (2 * px) <= 0x80_0000 * py) by (nonlinear_arith)
                requires
                    2 * px <= py,
            ;
        }
    }
}

/// The pattern without a sign and value are zero together.
proof fn lemma_magnitude_zero(x: u32)
    requires
        x <= 0x7f80_0000,
    ensures
        magnitude(x) >= 0,
        magnitude(x) == 0 <==> x == 0,
{
    assert(0u32 & 0x7fff_ffff == 0 && (0u32 >> 23) == 0 && (0u32 & 0x7f_ffff) == 0) by (bit_vector);
    if x > 0 {
        lemma_magnitude_grows(0, x);
    }
}

/// The keys of two scores that are not NaNs stand as the values of the
/// scores do: the smaller key belongs to the smaller value, and the keys are
/// the same exactly if the values are.
pub proof fn lemma_keys_follow_values(a: u32, b: u32)
    requires
        !is_nan(a),
        !is_nan(b),
    ensures
        ascending_key(a) < ascending_key(b) <==> scaled_value(a) < scaled_value(b),
        ascending_key(a) == ascending_key(b) <==> scaled_value(a) == scaled_value(b),
{
    let la = magnitude_bits(a);
    let lb = magnitude_bits(b);
    lemma_key_as_number(a);
    lemma_key_as_number(b);
    lemma_magnitude_zero(la);
    lemma_magnitude_zero(lb);
    assert(magnitude(la) == magnitude(a) && magnitude(lb) == magnitude(b)) by {
        assert((a & 0x7fff_ffff) & 0x7fff_ffff == a & 0x7fff_ffff) by (bit_vector);
        assert((b & 0x7fff_ffff) & 0x7fff_ffff == b & 0x7fff_ffff) by (bit_vector);
    }
    if la < lb {
        lemma_magnitude_grows(la, lb);
    } else if lb < la {
        lemma_magnitude_grows(lb, la);
    }
}

/// The key of a score that is not a NaN, as a number: a value that is not
/// negative has the key of its pattern above 2^31, a negative one has the
/// key of its pattern below it, and both zeros have the key 2^31.
proof fn lemma_key_as_number(bits: u32)
    requires
        !is_nan(bits),
    ensures
        magnitude_bits(bits) <= 0x7f80_0000,
        bits & 0x8000_0000 == 0 ==> ascending_key(bits) == 0x8000_0000 + magnitude_bits(bits),
        bits & 0x8000_0000 != 0 && magnitude_bits(bits) == 0 ==> ascending_key(bits) == 0x8000_0000,
        bits & 0x8000_0000 != 0 && magnitude_bits(bits) > 0 ==> ascending_key(bits) == 0x7fff_ffff
            - magnitude_bits(bits),
{
    assert(bits & 0x8000_0000 == 0 ==> (bits | 0x8000_0000) == 0x8000_0000 + (bits & 0x7fff_ffff)
        && bits != 0x8000_0000) by (bit_vector)
        requires
            (bits & 0x7fff_ffff) <= 0x7f80_0000u32,
    ;
    assert(bits & 0x8000_0000 != 0 ==> !bits == 0x7fff_ffff - (bits & 0x7fff_ffff) && (bits
        == 0x8000_0000 <==> (bits & 0x7fff_ffff) == 0)) by (bit_vector);
}

/// Under the metric that measures a distance the better rank belongs to the
/// smaller score, under the two that measure a similarity to the larger
/// one; scores of the same value have the same rank.
pub proof fn lemma_rank_follows_value(metric: Distance, a: u32, b: u32)
    requires
        !is_nan(a),
        !is_nan(b),
    ensures
        rank_key(metric, a) < rank_key(metric, b) <==> if metric == Distance::Euclidean {
            scaled_value(a) < scaled_value(b)
        } else {
            scaled_value(a) > scaled_value(b)
        },
        rank_key(metric, a) == rank_key(metric, b) <==> scaled_value(a) == scaled_value(b),
{
    lemma_keys_follow_values(a, b);
    let x = ascending_key(a);
    let y = ascending_key(b);
    assert((!x < !y <==> x > y) && (!x == !y <==> x == y)) by (bit_vector);
}

} // verus!
