//! Power diagnostics over numeric readings: per-bit majority statistics
//! give the gamma and epsilon rates.
use vstd::arithmetic::power2::pow2;
use vstd::prelude::*;

verus! {

/// A diagnostic report: readings of a fixed bit width.
pub struct DiagReport {
    /// Number of binary digits in each reading.
    pub width: usize,
    /// The readings.
    pub data: Vec<usize>,
}

/// Bit `e` of a value.
pub open spec fn bit_of(val: int, e: int) -> int {
    (val / pow2(e as nat) as int) % 2
}

/// How many of the first `i` readings have bit `e` set.
pub open spec fn bit_count(data: Seq<usize>, e: int, i: int) -> int
    decreases i,
{
    if i <= 0 {
        0
    } else {
        bit_count(data, e, i - 1) + bit_of(data[i - 1] as int, e)
    }
}

/// The gamma rate over the low `e` bit positions: bit `e'` is set when
/// more than half the readings have bit `e'` set.
pub open spec fn gamma_upto(data: Seq<usize>, e: int) -> int
    decreases e,
{
    if e <= 0 {
        0
    } else {
        gamma_upto(data, e - 1) + if bit_count(data, e - 1, data.len() as int) > data.len() as int
            / 2 {
            pow2((e - 1) as nat) as int
        } else {
            0
        }
    }
}

/// The epsilon rate over the low `e` bit positions: the complement of
/// gamma within the report's width.
pub open spec fn epsilon_upto(data: Seq<usize>, e: int) -> int
    decreases e,
{
    if e <= 0 {
        0
    } else {
        epsilon_upto(data, e - 1) + if bit_count(data, e - 1, data.len() as int) > data.len() as int
            / 2 {
            0
        } else {
            pow2((e - 1) as nat) as int
        }
    }
}

/// A bit is zero or one, so a count of set bits is at most the number
/// of readings counted.
pub proof fn lemma_bit_count_bound(data: Seq<usize>, e: int, i: int)
    requires
        i >= 0,
    ensures
        0 <= bit_count(data, e, i) <= i,
    decreases i,
{
    if i > 0 {
        lemma_bit_count_bound(data, e, i - 1);
        vstd::arithmetic::power2::lemma_pow2_pos(e as nat);
        assert(0 <= bit_of(data[i - 1] as int, e) <= 1);
    }
}

/// Gamma and epsilon rates fit below `pow2(e)`.
pub proof fn lemma_rates_bound(data: Seq<usize>, e: int)
    requires
        e >= 0,
    ensures
        0 <= gamma_upto(data, e) < pow2(e as nat) as int,
        0 <= epsilon_upto(data, e) < pow2(e as nat) as int,
    decreases e,
{
    vstd::arithmetic::power2::lemma_pow2_pos(e as nat);
    if e > 0 {
        lemma_rates_bound(data, e - 1);
        vstd::arithmetic::power2::lemma_pow2_adds((e - 1) as nat, 1);
        vstd::arithmetic::power2::lemma2_to64();
    }
}

/// `pow2` as an executable function.
pub fn pow2_exec(e: usize) -> (r: usize)
    requires
        pow2(e as nat) <= usize::MAX as int,
    ensures
        r as int == pow2(e as nat) as int,
{
    let mut k: usize = 0;
    let mut p: usize = 1;
    proof {
        vstd::arithmetic::power2::lemma2_to64();
    }
    while k < e
        invariant
            0 <= k <= e,
            p as int == pow2(k as nat) as int,
            pow2(e as nat) <= usize::MAX as int,
        decreases e - k,
    {
        proof {
            vstd::arithmetic::power2::lemma_pow2_adds(k as nat, 1);
            vstd::arithmetic::power2::lemma2_to64();
            if k as nat + 1 < e as nat {
                vstd::arithmetic::power2::lemma_pow2_strictly_increases(
                    (k + 1) as nat,
                    e as nat,
                );
            }
        }
        p = p * 2;
        k += 1;
    }
    p
}

/// Computes the gamma and epsilon rates of a report: for each bit
/// position, gamma takes the bit set in more than half the readings,
/// epsilon the opposite bit.
pub fn calc_gamma_epsilon(report: &DiagReport) -> (r: (usize, usize))
    requires
        pow2(report.width as nat) - 1 <= usize::MAX as int,
    ensures
        r.0 as int == gamma_upto(report.data@, report.width as int),
        r.1 as int == epsilon_upto(report.data@, report.width as int),
{
    let len = report.data.len();
    let gamma_threshold = len / 2;
    let width = report.width;
    let mut accum: Vec<usize> = vec![0; width];
    proof {
        assert(forall|e: int| 0 <= e < width ==> accum@[e] == 0);
    }
    let mut i: usize = 0;
    while i < len
        invariant
            0 <= i <= len,
            len == report.data@.len(),
            accum@.len() == width,
            forall|e: int| 0 <= e < width ==> accum@[e] as int == bit_count(report.data@, e, i as int),
            pow2(width as nat) - 1 <= usize::MAX as int,
        decreases len - i,
    {
        let mut e: usize = 0;
        while e < width
            invariant
                0 <= e <= width,
                0 <= i < len,
                len == report.data@.len(),
                accum@.len() == width,
                forall|e2: int|
                    0 <= e2 < e ==> accum@[e2] as int == bit_count(report.data@, e2, i as int + 1),
                forall|e2: int|
                    e <= e2 < width ==> accum@[e2] as int == bit_count(report.data@, e2, i as int),
                pow2(width as nat) - 1 <= usize::MAX as int,
            decreases width - e,
        {
            proof {
                vstd::arithmetic::power2::lemma_pow2_strictly_increases(e as nat, width as nat);
                vstd::arithmetic::power2::lemma_pow2_pos(e as nat);
                lemma_bit_count_bound(report.data@, e as int, i as int);
            }
            let p = pow2_exec(e);
            let bit = (report.data[i] / p) % 2;
            let prev = accum[e];
            accum.set(e, prev + bit);
            e += 1;
        }
        i += 1;
    }
    let mut gamma: usize = 0;
    let mut epsilon: usize = 0;
    let mut e: usize = 0;
    while e < width
        invariant
            0 <= e <= width,
            len == report.data@.len(),
            gamma_threshold == len as int / 2,
            accum@.len() == width,
            forall|e2: int|
                0 <= e2 < width ==> accum@[e2] as int == bit_count(report.data@, e2, len as int),
            gamma as int == gamma_upto(report.data@, e as int),
            epsilon as int == epsilon_upto(report.data@, e as int),
            pow2(width as nat) - 1 <= usize::MAX as int,
        decreases width - e,
    {
        proof {
            lemma_rates_bound(report.data@, e as int);
            vstd::arithmetic::power2::lemma_pow2_pos(e as nat);
            vstd::arithmetic::power2::lemma_pow2_adds(e as nat, 1);
            vstd::arithmetic::power2::lemma2_to64();
            if (e as nat) + 1 < width as nat {
                vstd::arithmetic::power2::lemma_pow2_strictly_increases((e + 1) as nat, width as nat);
            } else {
                assert((e as nat) + 1 == width as nat);
            }
        }
        let p = pow2_exec(e);
        if accum[e] > gamma_threshold {
            gamma = gamma + p;
        } else {
            epsilon = epsilon + p;
        }
        e += 1;
    }
    (gamma, epsilon)
}

} // verus!
