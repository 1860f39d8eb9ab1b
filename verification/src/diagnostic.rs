//! Diagnostics over binary readings kept as bit vectors: majority
//! statistics, and the oxygen / carbon-dioxide scrubber filters.
use vstd::arithmetic::power2::pow2;
use vstd::prelude::*;

verus! {

/// One reading: its bits, most significant first.
pub type Val = Vec<bool>;

/// The value of a bit sequence read most-significant-first.
pub open spec fn bits_value(v: Seq<bool>) -> int
    decreases v.len(),
{
    if v.len() == 0 {
        0
    } else {
        2 * bits_value(v.drop_last()) + if v.last() {
            1int
        } else {
            0int
        }
    }
}

/// A bit sequence's value fits below `pow2` of its length.
pub proof fn lemma_bits_value_bound(v: Seq<bool>)
    ensures
        0 <= bits_value(v) < pow2(v.len()) as int,
    decreases v.len(),
{
    vstd::arithmetic::power2::lemma_pow2_pos(v.len());
    if v.len() > 0 {
        lemma_bits_value_bound(v.drop_last());
        vstd::arithmetic::power2::lemma_pow2_adds((v.len() - 1) as nat, 1);
        vstd::arithmetic::power2::lemma2_to64();
    }
}

/// The value of a bit vector, reading the bits most-significant-first.
pub fn val_to_usize(val: &Val) -> (r: usize)
    requires
        pow2(val@.len() as nat) - 1 <= usize::MAX as int,
    ensures
        r as int == bits_value(val@),
{
    let mut acc: usize = 0;
    proof {
        vstd::arithmetic::power2::lemma2_to64();
    }
    let mut j: usize = 0;
    while j < val.len()
        invariant
            0 <= j <= val@.len(),
            pow2(val@.len() as nat) - 1 <= usize::MAX as int,
            acc as int == bits_value(val@.take(j as int)),
            (acc as int) < pow2(j as nat) as int,
        decreases val@.len() - j,
    {
        proof {
            lemma_bits_value_bound(val@.take(j as int));
            vstd::arithmetic::power2::lemma_pow2_adds(j as nat, 1);
            vstd::arithmetic::power2::lemma2_to64();
            if j as nat + 1 < val@.len() as nat {
                vstd::arithmetic::power2::lemma_pow2_strictly_increases(
                    (j + 1) as nat,
                    val@.len() as nat,
                );
            }
            assert(val@.take(j as int + 1).drop_last() =~= val@.take(j as int));
        }
        acc = 2 * acc + if val[j] {
            1
        } else {
            0
        };
        j += 1;
    }
    proof {
        assert(val@.take(val@.len() as int) =~= val@);
    }
    acc
}

/// The bits of a reading as a string of ones and zeroes.
pub fn val_to_str(val: &Val) -> (r: String)
    ensures
        r@ == Seq::new(val@.len(), |j: int| if val@[j] {
            '1'
        } else {
            '0'
        }),
{
    proof {
        reveal_strlit("0");
        reveal_strlit("1");
    }
    let mut out = String::new();
    let mut j: usize = 0;
    while j < val.len()
        invariant
            0 <= j <= val@.len(),
            out@ == Seq::new(j as nat, |k: int| if val@[k] {
                '1'
            } else {
                '0'
            }),
        decreases val@.len() - j,
    {
        proof {
            reveal_strlit("0");
            reveal_strlit("1");
        }
        if val[j] {
            out.append("1");
        } else {
            out.append("0");
        }
        proof {
            assert(out@ =~= Seq::new(j as nat + 1, |k: int| if val@[k] {
                '1'
            } else {
                '0'
            }));
        }
        j += 1;
    }
    proof {
        assert(out@ =~= Seq::new(val@.len(), |k: int| if val@[k] {
            '1'
        } else {
            '0'
        }));
    }
    out
}

/// A reading parsed from a string: each `'1'` becomes a set bit.
pub fn str_to_val(str: &str) -> (r: Val)
    ensures
        r@ == Seq::new(str@.len(), |j: int| str@[j] == '1'),
{
    let n = str.unicode_len();
    let mut out: Val = Vec::new();
    let mut j: usize = 0;
    while j < n
        invariant
            0 <= j <= n,
            n == str@.len(),
            out@ == Seq::new(j as nat, |k: int| str@[k] == '1'),
        decreases n - j,
    {
        let c = str.get_char(j);
        out.push(c == '1');
        proof {
            assert(out@ =~= Seq::new(j as nat + 1, |k: int| str@[k] == '1'));
        }
        j += 1;
    }
    proof {
        assert(out@ =~= Seq::new(str@.len(), |k: int| str@[k] == '1'));
    }
    out
}

/// Ceiling division: rounds the quotient up whenever it is not exact.
pub fn div_ciel(a: usize, b: usize) -> (q: usize)
    requires
        b > 0,
    ensures
        q as int == if a as int % b as int == 0 {
            a as int / b as int
        } else {
            a as int / b as int + 1
        },
{
    if a % b == 0 {
        a / b
    } else {
        proof {
            if b == 1 {
                assert(a as int % (b as int) == 0);
            }
            vstd::arithmetic::div_mod::lemma_div_is_ordered_by_denominator(a as int, 2, b as int);
            assert(a as int / 2 < usize::MAX as int);
        }
        (a / b) + 1
    }
}

/// The elements selected by a boolean mask, in order.
pub open spec fn mask_keep<T>(s: Seq<T>, keep: Seq<bool>) -> Seq<T>
    decreases s.len(),
{
    if s.len() == 0 {
        Seq::empty()
    } else {
        mask_keep(s.drop_last(), keep.drop_last()) + if keep.len() > 0 && keep.last() {
            seq![s.last()]
        } else {
            Seq::empty()
        }
    }
}

/// Removes from the vector every element on which the filter returns
/// true, keeping the rest in order.  The kept elements are described by
/// a mask consistent with the filter's postcondition.
pub fn drain_filter<T, F: Fn(&T) -> bool>(vec: &mut Vec<T>, filter: F)
    requires
        forall|i: int| 0 <= i < old(vec)@.len() ==> call_requires(filter, (&old(vec)@[i],)),
    ensures
        exists|keep: Seq<bool>|
            {
                &&& keep.len() == old(vec)@.len()
                &&& final(vec)@ == mask_keep(old(vec)@, keep)
                &&& forall|t: int|
                    0 <= t < keep.len() ==> call_ensures(filter, (&old(vec)@[t],), !keep[t])
            },
{
    let ghost orig = vec@;
    let ghost mut keep: Seq<bool> = Seq::empty();
    proof {
        assert(vec@ =~= mask_keep(orig.take(0), keep) + orig.skip(0));
    }
    let mut i: usize = 0;
    while i < vec.len()
        invariant
            0 <= keep.len() <= orig.len(),
            forall|t: int| 0 <= t < orig.len() ==> call_requires(filter, (&orig[t],)),
            i as int == mask_keep(orig.take(keep.len() as int), keep).len(),
            vec@ == mask_keep(orig.take(keep.len() as int), keep) + orig.skip(keep.len() as int),
            forall|t: int| 0 <= t < keep.len() ==> call_ensures(filter, (&orig[t],), !keep[t]),
        decreases orig.len() - keep.len(),
    {
        let ghost n = keep.len() as int;
        let ghost m = mask_keep(orig.take(n), keep);
        proof {
            assert(orig.skip(n).len() > 0);
            assert(vec@[i as int] == orig.skip(n)[0]);
            assert(orig.skip(n)[0] == orig[n]);
        }
        let b = filter(&vec[i]);
        if b {
            let ghost keep2 = keep.push(false);
            vec.remove(i);
            proof {
                assert(keep2.drop_last() =~= keep);
                assert(orig.take(n + 1).drop_last() =~= orig.take(n));
                assert(mask_keep(orig.take(n + 1), keep2) =~= m);
                assert(vec@ =~= m + orig.skip(n + 1));
                keep = keep2;
            }
        } else {
            let ghost keep2 = keep.push(true);
            proof {
                assert(keep2.drop_last() =~= keep);
                assert(orig.take(n + 1).drop_last() =~= orig.take(n));
                assert(orig.take(n + 1).last() == orig[n]);
                assert(mask_keep(orig.take(n + 1), keep2) =~= m + seq![orig[n]]);
                assert(vec@ =~= mask_keep(orig.take(n + 1), keep2) + orig.skip(n + 1));
                keep = keep2;
            }
            i += 1;
        }
    }
    proof {
        assert(orig.skip(keep.len() as int).len() == 0);
        assert(keep.len() == orig.len());
        assert(orig.take(keep.len() as int) =~= orig);
        assert(vec@ =~= mask_keep(orig, keep));
    }
}

// ------------------------------------------------------------------
// Greedy binary rendering
// ------------------------------------------------------------------

/// The bits produced by greedily subtracting descending powers of two,
/// indexed by bit position (position `e - 1` is decided first).
pub open spec fn greedy_bits(i: int, e: int) -> Seq<bool>
    decreases e,
{
    if e <= 0 {
        Seq::empty()
    } else {
        let p = pow2((e - 1) as nat) as int;
        let b = i >= p;
        let rest = if b {
            i - p
        } else {
            i
        };
        greedy_bits(rest, e - 1).push(b)
    }
}

/// Greedy subtraction yields one bit per position.
pub proof fn lemma_greedy_len(i: int, e: int)
    requires
        e >= 0,
    ensures
        greedy_bits(i, e).len() == e,
    decreases e,
{
    if e > 0 {
        let p = pow2((e - 1) as nat) as int;
        let rest = if i >= p {
            i - p
        } else {
            i
        };
        lemma_greedy_len(rest, e - 1);
    }
}

/// The value as a bit vector indexed by bit position, decided greedily
/// from the highest position down.
pub fn usize_to_val(i: usize, width: usize) -> (r: Val)
    requires
        pow2(width as nat) - 1 <= usize::MAX as int,
    ensures
        r@ == greedy_bits(i as int, width as int),
{
    let ghost full = greedy_bits(i as int, width as int);
    proof {
        lemma_greedy_len(i as int, width as int);
        assert(full.take(width as int) =~= full);
    }
    let mut out: Val = vec![false; width];
    let mut rem = i;
    let mut e = width;
    while e > 0
        invariant
            0 <= e <= width,
            out@.len() == width,
            full == greedy_bits(i as int, width as int),
            full.len() == width,
            pow2(width as nat) - 1 <= usize::MAX as int,
            forall|p: int| e <= p < width ==> out@[p] == full[p],
            forall|p: int| 0 <= p < e ==> out@[p] == false,
            greedy_bits(rem as int, e as int) == full.take(e as int),
        decreases e,
    {
        proof {
            if ((e - 1) as nat) < (width as nat) {
                vstd::arithmetic::power2::lemma_pow2_strictly_increases(
                    (e - 1) as nat,
                    width as nat,
                );
            }
            vstd::arithmetic::power2::lemma_pow2_pos((e - 1) as nat);
            lemma_greedy_len(rem as int, e as int);
            assert(full.take(e as int).drop_last() =~= full.take(e as int - 1));
            let pg = pow2((e - 1) as nat) as int;
            let bg = rem as int >= pg;
            let restg = if bg {
                rem as int - pg
            } else {
                rem as int
            };
            assert(greedy_bits(rem as int, e as int) == greedy_bits(restg, e as int - 1).push(bg));
            assert(full.take(e as int).len() == e);
            assert(full.take(e as int).last() == bg);
            assert(full.take(e as int)[e as int - 1] == full[e as int - 1]);
            assert(full[e as int - 1] == bg);
            assert(greedy_bits(restg, e as int - 1) == full.take(e as int - 1));
        }
        let p2 = crate::power::pow2_exec(e - 1);
        if rem >= p2 {
            out.set(e - 1, true);
            rem = rem - p2;
        }
        e -= 1;
    }
    proof {
        assert(out@ =~= full);
    }
    out
}

/// The value rendered greedily as a string of ones and zeroes, highest
/// bit position first.
pub fn binstr(i: usize, width: usize) -> (r: String)
    requires
        pow2(width as nat) - 1 <= usize::MAX as int,
    ensures
        r@ == Seq::new(width as nat, |j: int| if greedy_bits(i as int, width as int)[
            width - 1 - j
        ] {
            '1'
        } else {
            '0'
        }),
{
    proof {
        reveal_strlit("0");
        reveal_strlit("1");
    }
    let ghost full = greedy_bits(i as int, width as int);
    proof {
        lemma_greedy_len(i as int, width as int);
        assert(full.take(width as int) =~= full);
    }
    let mut str = String::new();
    let mut rem = i;
    let mut e = width;
    while e > 0
        invariant
            0 <= e <= width,
            str@.len() == width - e,
            full == greedy_bits(i as int, width as int),
            full.len() == width,
            pow2(width as nat) - 1 <= usize::MAX as int,
            forall|j: int| 0 <= j < width - e ==> str@[j] == (if full[width - 1 - j] {
                '1'
            } else {
                '0'
            }),
            greedy_bits(rem as int, e as int) == full.take(e as int),
        decreases e,
    {
        proof {
            reveal_strlit("0");
            reveal_strlit("1");
            if ((e - 1) as nat) < (width as nat) {
                vstd::arithmetic::power2::lemma_pow2_strictly_increases(
                    (e - 1) as nat,
                    width as nat,
                );
            }
            vstd::arithmetic::power2::lemma_pow2_pos((e - 1) as nat);
            lemma_greedy_len(rem as int, e as int);
            assert(full.take(e as int).drop_last() =~= full.take(e as int - 1));
            let pg = pow2((e - 1) as nat) as int;
            let bg = rem as int >= pg;
            let restg = if bg {
                rem as int - pg
            } else {
                rem as int
            };
            assert(greedy_bits(rem as int, e as int) == greedy_bits(restg, e as int - 1).push(bg));
            assert(full.take(e as int).len() == e);
            assert(full.take(e as int).last() == bg);
            assert(full.take(e as int)[e as int - 1] == full[e as int - 1]);
            assert(full[e as int - 1] == bg);
            assert(greedy_bits(restg, e as int - 1) == full.take(e as int - 1));
        }
        let p2 = crate::power::pow2_exec(e - 1);
        if rem >= p2 {
            str.append("1");
            rem = rem - p2;
        } else {
            str.append("0");
        }
        e -= 1;
    }
    proof {
        assert(str@ =~= Seq::new(width as nat, |j: int| if full[width - 1 - j] {
            '1'
        } else {
            '0'
        }));
    }
    str
}

// ------------------------------------------------------------------
// The diagnostic report
// ------------------------------------------------------------------

/// The readings of a report as mathematical bit sequences.
pub open spec fn rows_of(data: Seq<Val>) -> Seq<Seq<bool>> {
    Seq::new(data.len(), |i: int| data[i]@)
}

/// How many of the first `i` readings have bit `e` set (readings too
/// short to have bit `e` count as unset).
pub open spec fn bcol_count(rows: Seq<Seq<bool>>, e: int, i: int) -> int
    decreases i,
{
    if i <= 0 {
        0
    } else {
        bcol_count(rows, e, i - 1) + if 0 <= e < rows[i - 1].len() && rows[i - 1][e] {
            1int
        } else {
            0int
        }
    }
}

/// A count of readings is at most the number of readings counted.
pub proof fn lemma_bcol_count_bound(rows: Seq<Seq<bool>>, e: int, i: int)
    requires
        i >= 0,
    ensures
        0 <= bcol_count(rows, e, i) <= i,
    decreases i,
{
    if i > 0 {
        lemma_bcol_count_bound(rows, e, i - 1);
    }
}

/// A diagnostic report of bit-vector readings.
pub struct DiagReport {
    /// Number of bit positions examined.
    pub width: usize,
    /// The readings, most significant bit first.
    pub data: Vec<Val>,
}

impl DiagReport {
    /// Per-position majority rates: gamma has a bit set where more than
    /// half the readings have it set, epsilon is the complement within
    /// the report's width.
    pub fn calc_gamma_epsilon(&self) -> (r: (Val, Val))
        requires
            forall|j: int|
                0 <= j < self.data@.len() ==> (#[trigger] self.data@[j]@).len() <= self.width,
        ensures
            r.0@ == Seq::new(
                self.width as nat,
                |e: int|
                    bcol_count(rows_of(self.data@), e, self.data@.len() as int)
                        > self.data@.len() as int / 2,
            ),
            r.1@ == Seq::new(
                self.width as nat,
                |e: int|
                    !(bcol_count(rows_of(self.data@), e, self.data@.len() as int)
                        > self.data@.len() as int / 2),
            ),
    {
        let ghost rows = rows_of(self.data@);
        let len = self.data.len();
        let gamma_threshold = len / 2;
        let width = self.width;
        let mut accum: Vec<usize> = vec![0; width];
        let mut i: usize = 0;
        while i < len
            invariant
                0 <= i <= len,
                rows == rows_of(self.data@),
                len == self.data@.len(),
                accum@.len() == width,
                forall|j: int| 0 <= j < len ==> (#[trigger] self.data@[j]@).len() <= width,
                forall|e: int| 0 <= e < width ==> accum@[e] as int == bcol_count(rows, e, i as int),
            decreases len - i,
        {
            let row = &self.data[i];
            let row_len = row.len();
            let mut e: usize = 0;
            while e < row_len
                invariant
                    0 <= e <= row_len,
                    0 <= i < len,
                    rows == rows_of(self.data@),
                    len == self.data@.len(),
                    row@ == rows[i as int],
                    row_len == row@.len(),
                    row_len <= width,
                    accum@.len() == width,
                    forall|e2: int|
                        0 <= e2 < e ==> accum@[e2] as int == bcol_count(rows, e2, i as int + 1),
                    forall|e2: int|
                        e <= e2 < width ==> accum@[e2] as int == bcol_count(rows, e2, i as int),
                decreases row_len - e,
            {
                proof {
                    lemma_bcol_count_bound(rows, e as int, i as int);
                }
                if row[e] {
                    let prev = accum[e];
                    accum.set(e, prev + 1);
                }
                proof {
                    assert(accum@[e as int] as int == bcol_count(rows, e as int, i as int + 1));
                }
                e += 1;
            }
            proof {
                assert(forall|e2: int|
                    row_len <= e2 < width ==> bcol_count(rows, e2, i as int + 1) == bcol_count(
                        rows,
                        e2,
                        i as int,
                    ));
            }
            i += 1;
        }
        let mut gamma: Val = Vec::new();
        let mut epsilon: Val = Vec::new();
        let mut e: usize = 0;
        while e < width
            invariant
                0 <= e <= width,
                rows == rows_of(self.data@),
                len == self.data@.len(),
                gamma_threshold == len as int / 2,
                accum@.len() == width,
                forall|e2: int|
                    0 <= e2 < width ==> accum@[e2] as int == bcol_count(rows, e2, len as int),
                gamma@ == Seq::new(
                    e as nat,
                    |e2: int| bcol_count(rows, e2, len as int) > len as int / 2,
                ),
                epsilon@ == Seq::new(
                    e as nat,
                    |e2: int| !(bcol_count(rows, e2, len as int) > len as int / 2),
                ),
            decreases width - e,
        {
            let over = accum[e] > gamma_threshold;
            gamma.push(over);
            epsilon.push(!over);
            proof {
                assert(gamma@ =~= Seq::new(
                    e as nat + 1,
                    |e2: int| bcol_count(rows, e2, len as int) > len as int / 2,
                ));
                assert(epsilon@ =~= Seq::new(
                    e as nat + 1,
                    |e2: int| !(bcol_count(rows, e2, len as int) > len as int / 2),
                ));
            }
            e += 1;
        }
        (gamma, epsilon)
    }
}

// ------------------------------------------------------------------
// Scrubber ratings
// ------------------------------------------------------------------

/// How many of the readings at the given indices have bit `e` set.
pub open spec fn keep_count(rows: Seq<Seq<bool>>, idxs: Seq<usize>, e: int) -> int
    decreases idxs.len(),
{
    if idxs.len() == 0 {
        0
    } else {
        keep_count(rows, idxs.drop_last(), e) + if rows[idxs.last() as int][e] {
            1int
        } else {
            0int
        }
    }
}

/// The majority bit at position `e` among the given readings; a tie
/// counts as set.
pub open spec fn mode_at(rows: Seq<Seq<bool>>, idxs: Seq<usize>, e: int) -> bool {
    2 * keep_count(rows, idxs, e) >= idxs.len()
}

/// The indices whose reading has the wanted bit at position `e`, in
/// order.
pub open spec fn sieve(rows: Seq<Seq<bool>>, idxs: Seq<usize>, e: int, want: bool) -> Seq<usize>
    decreases idxs.len(),
{
    if idxs.len() == 0 {
        Seq::empty()
    } else {
        sieve(rows, idxs.drop_last(), e, want) + if rows[idxs.last() as int][e] == want {
            seq![idxs.last()]
        } else {
            Seq::empty()
        }
    }
}

/// The scrubber filter: from bit position `e` up to `width`, keep the
/// readings whose bit agrees with the majority (or, for `keep_mode`
/// false, disagrees), stopping as soon as one reading is left.
pub open spec fn scrub(
    rows: Seq<Seq<bool>>,
    idxs: Seq<usize>,
    e: int,
    width: int,
    keep_mode: bool,
) -> Seq<usize>
    decreases width - e,
{
    if e >= width {
        idxs
    } else {
        let want = if keep_mode {
            mode_at(rows, idxs, e)
        } else {
            !mode_at(rows, idxs, e)
        };
        let kept = sieve(rows, idxs, e, want);
        if kept.len() == 1 {
            kept
        } else {
            scrub(rows, kept, e + 1, width, keep_mode)
        }
    }
}

/// The first `n` indices in order.
pub open spec fn all_indices(n: int) -> Seq<usize> {
    Seq::new(n as nat, |i: int| i as usize)
}

/// A mask that selects exactly the readings with the wanted bit selects
/// the same indices as the sieve.
pub proof fn lemma_mask_is_sieve(
    rows: Seq<Seq<bool>>,
    idxs: Seq<usize>,
    keep: Seq<bool>,
    e: int,
    want: bool,
)
    requires
        keep.len() == idxs.len(),
        forall|t: int| 0 <= t < idxs.len() ==> keep[t] == (rows[idxs[t] as int][e] == want),
    ensures
        mask_keep(idxs, keep) == sieve(rows, idxs, e, want),
    decreases idxs.len(),
{
    if idxs.len() > 0 {
        lemma_mask_is_sieve(rows, idxs.drop_last(), keep.drop_last(), e, want);
    }
}

/// A count of set bits never exceeds the number of readings counted.
pub proof fn lemma_keep_count_bound(rows: Seq<Seq<bool>>, idxs: Seq<usize>, e: int)
    ensures
        0 <= keep_count(rows, idxs, e) <= idxs.len(),
    decreases idxs.len(),
{
    if idxs.len() > 0 {
        lemma_keep_count_bound(rows, idxs.drop_last(), e);
    }
}

/// The sieve only keeps indices that were already present.
pub proof fn lemma_sieve_elems(rows: Seq<Seq<bool>>, idxs: Seq<usize>, e: int, want: bool)
    ensures
        forall|t: int|
            0 <= t < sieve(rows, idxs, e, want).len() ==> exists|u: int|
                0 <= u < idxs.len() && idxs[u] == #[trigger] sieve(rows, idxs, e, want)[t],
    decreases idxs.len(),
{
    if idxs.len() > 0 {
        lemma_sieve_elems(rows, idxs.drop_last(), e, want);
        assert forall|t: int| 0 <= t < sieve(rows, idxs, e, want).len() implies exists|u: int|
            0 <= u < idxs.len() && idxs[u] == #[trigger] sieve(rows, idxs, e, want)[t] by {
            let prev = sieve(rows, idxs.drop_last(), e, want);
            if t < prev.len() {
                let u = choose|u: int|
                    0 <= u < idxs.drop_last().len() && idxs.drop_last()[u] == prev[t];
                assert(idxs[u] == sieve(rows, idxs, e, want)[t]);
            } else {
                assert(idxs[idxs.len() - 1] == sieve(rows, idxs, e, want)[t]);
            }
        }
    }
}

impl DiagReport {
    /// Runs the scrubber filter and hands back the one reading it
    /// settles on.
    fn scrub_exec(&self, keep_mode: bool) -> (r: &Val)
        requires
            forall|j: int|
                0 <= j < self.data@.len() ==> (#[trigger] self.data@[j]@).len() >= self.width,
            scrub(
                rows_of(self.data@),
                all_indices(self.data@.len() as int),
                0,
                self.width as int,
                keep_mode,
            ).len() >= 1,
        ensures
            scrub(
                rows_of(self.data@),
                all_indices(self.data@.len() as int),
                0,
                self.width as int,
                keep_mode,
            )[0] < self.data@.len(),
            r@ == rows_of(self.data@)[scrub(
                rows_of(self.data@),
                all_indices(self.data@.len() as int),
                0,
                self.width as int,
                keep_mode,
            )[0] as int],
    {
        let ghost rows = rows_of(self.data@);
        let n = self.data.len();
        let ghost full = scrub(rows, all_indices(n as int), 0, self.width as int, keep_mode);
        let mut haystack: Vec<usize> = Vec::new();
        let mut t: usize = 0;
        while t < n
            invariant
                0 <= t <= n,
                haystack@ == all_indices(t as int),
            decreases n - t,
        {
            haystack.push(t);
            proof {
                assert(haystack@ =~= all_indices(t as int + 1));
            }
            t += 1;
        }
        let mut pointer: usize = 0;
        while pointer < self.width
            invariant
                0 <= pointer <= self.width,
                rows == rows_of(self.data@),
                n == self.data@.len(),
                forall|j: int| 0 <= j < n ==> (#[trigger] self.data@[j]@).len() >= self.width,
                forall|u: int| 0 <= u < haystack@.len() ==> (#[trigger] haystack@[u]) < n,
                full == scrub(rows, all_indices(n as int), 0, self.width as int, keep_mode),
                full == scrub(rows, haystack@, pointer as int, self.width as int, keep_mode),
                full.len() >= 1,
            decreases self.width - pointer,
        {
            let hay_len = haystack.len();
            let mut count: usize = 0;
            let mut u: usize = 0;
            while u < hay_len
                invariant
                    0 <= u <= hay_len,
                    hay_len == haystack@.len(),
                    rows == rows_of(self.data@),
                    n == self.data@.len(),
                    pointer < self.width,
                    forall|j: int| 0 <= j < n ==> (#[trigger] self.data@[j]@).len() >= self.width,
                    forall|u2: int| 0 <= u2 < haystack@.len() ==> (#[trigger] haystack@[u2]) < n,
                    count as int == keep_count(rows, haystack@.take(u as int), pointer as int),
                    count <= u,
                decreases hay_len - u,
            {
                proof {
                    assert(haystack@.take(u as int + 1).drop_last() =~= haystack@.take(u as int));
                    lemma_keep_count_bound(rows, haystack@.take(u as int), pointer as int);
                }
                if self.data[haystack[u]][pointer] {
                    count += 1;
                }
                u += 1;
            }
            proof {
                assert(haystack@.take(hay_len as int) =~= haystack@);
            }
            let mode = count >= div_ciel(hay_len, 2);
            proof {
                assert(hay_len as int == 2 * (hay_len as int / 2) + hay_len as int % 2);
                assert(mode == mode_at(rows, haystack@, pointer as int));
            }
            let want = if keep_mode {
                mode
            } else {
                !mode
            };
            let ghost pre_hay = haystack@;
            let f = |idx: &usize| -> (b: bool)
                requires
                    *idx < self.data@.len(),
                    pointer < self.data@[*idx as int]@.len(),
                ensures
                    b == (rows_of(self.data@)[*idx as int][pointer as int] != want),
                { self.data[*idx][pointer] != want };
            drain_filter(&mut haystack, f);
            proof {
                let keep = choose|keep: Seq<bool>|
                    {
                        &&& keep.len() == pre_hay.len()
                        &&& haystack@ == mask_keep(pre_hay, keep)
                        &&& forall|t2: int|
                            0 <= t2 < keep.len() ==> call_ensures(f, (&pre_hay[t2],), !keep[t2])
                    };
                assert forall|t2: int| 0 <= t2 < pre_hay.len() implies keep[t2] == (rows[
                    pre_hay[t2] as int
                ][pointer as int] == want) by {
                    assert(call_ensures(f, (&pre_hay[t2],), !keep[t2]));
                }
                lemma_mask_is_sieve(rows, pre_hay, keep, pointer as int, want);
                assert(haystack@ == sieve(rows, pre_hay, pointer as int, want));
                lemma_sieve_elems(rows, pre_hay, pointer as int, want);
                assert forall|u2: int| 0 <= u2 < haystack@.len() implies (#[trigger] haystack@[u2])
                    < n by {
                    let w = choose|w: int| 0 <= w < pre_hay.len() && pre_hay[w] == haystack@[u2];
                }
            }
            if haystack.len() == 1 {
                proof {
                    assert(full == haystack@);
                    assert(full[0] == haystack@[0]);
                    assert(rows[haystack@[0] as int] == self.data@[haystack@[0] as int]@);
                }
                return &self.data[haystack[0]];
            }
            pointer += 1;
        }
        proof {
            assert(full == haystack@);
            assert(full[0] == haystack@[0]);
            assert(rows[haystack@[0] as int] == self.data@[haystack@[0] as int]@);
        }
        &self.data[haystack[0]]
    }

    /// The oxygen generator rating: repeatedly keep the readings whose
    /// bit agrees with the majority, position by position, until one
    /// reading remains.
    pub fn o2_scrubber_rating(&self) -> (r: &Val)
        requires
            forall|j: int|
                0 <= j < self.data@.len() ==> (#[trigger] self.data@[j]@).len() >= self.width,
            scrub(
                rows_of(self.data@),
                all_indices(self.data@.len() as int),
                0,
                self.width as int,
                true,
            ).len() >= 1,
        ensures
            scrub(
                rows_of(self.data@),
                all_indices(self.data@.len() as int),
                0,
                self.width as int,
                true,
            )[0] < self.data@.len(),
            r@ == rows_of(self.data@)[scrub(
                rows_of(self.data@),
                all_indices(self.data@.len() as int),
                0,
                self.width as int,
                true,
            )[0] as int],
    {
        self.scrub_exec(true)
    }

    /// The carbon-dioxide scrubber rating: repeatedly keep the readings
    /// whose bit disagrees with the majority, position by position,
    /// until one reading remains.
    pub fn co2_scrubber_rating(&self) -> (r: &Val)
        requires
            forall|j: int|
                0 <= j < self.data@.len() ==> (#[trigger] self.data@[j]@).len() >= self.width,
            scrub(
                rows_of(self.data@),
                all_indices(self.data@.len() as int),
                0,
                self.width as int,
                false,
            ).len() >= 1,
        ensures
            scrub(
                rows_of(self.data@),
                all_indices(self.data@.len() as int),
                0,
                self.width as int,
                false,
            )[0] < self.data@.len(),
            r@ == rows_of(self.data@)[scrub(
                rows_of(self.data@),
                all_indices(self.data@.len() as int),
                0,
                self.width as int,
                false,
            )[0] as int],
    {
        self.scrub_exec(false)
    }

    /// The life support rating: the product of the oxygen generator
    /// rating and the carbon-dioxide scrubber rating, read as numbers.
    #[verifier::rlimit(50)]
    pub fn life_support_rating(&self) -> (r: usize)
        requires
            forall|j: int|
                0 <= j < self.data@.len() ==> (#[trigger] self.data@[j]@).len() == self.width,
            scrub(
                rows_of(self.data@),
                all_indices(self.data@.len() as int),
                0,
                self.width as int,
                true,
            ).len() >= 1,
            scrub(
                rows_of(self.data@),
                all_indices(self.data@.len() as int),
                0,
                self.width as int,
                false,
            ).len() >= 1,
            pow2((2 * self.width) as nat) - 1 <= usize::MAX as int,
        ensures
            r as int == bits_value(
                rows_of(self.data@)[scrub(
                    rows_of(self.data@),
                    all_indices(self.data@.len() as int),
                    0,
                    self.width as int,
                    true,
                )[0] as int],
            ) * bits_value(
                rows_of(self.data@)[scrub(
                    rows_of(self.data@),
                    all_indices(self.data@.len() as int),
                    0,
                    self.width as int,
                    false,
                )[0] as int],
            ),
    {
        let ghost rows = rows_of(self.data@);
        let ghost n = self.data@.len() as int;
        let ghost w = self.width as nat;
        proof {
            vstd::arithmetic::power2::lemma_pow2_pos(w);
            vstd::arithmetic::power2::lemma_pow2_adds(w, w);
            if (w as int) < 2 * self.width {
                vstd::arithmetic::power2::lemma_pow2_strictly_increases(w, (2 * self.width) as nat);
            }
        }
        let o2 = self.o2_scrubber_rating();
        proof {
            lemma_bits_value_bound(o2@);
        }
        let o2_rating = val_to_usize(o2);
        let co2 = self.co2_scrubber_rating();
        proof {
            lemma_bits_value_bound(co2@);
        }
        let co2_rating = val_to_usize(co2);
        proof {
            let p = pow2(w) as int;
            vstd::arithmetic::mul::lemma_mul_inequality(o2_rating as int, p - 1, co2_rating as int);
            vstd::arithmetic::mul::lemma_mul_inequality(co2_rating as int, p - 1, p - 1);
            vstd::arithmetic::mul::lemma_mul_is_commutative(p - 1, co2_rating as int);
            assert((p - 1) * (p - 1) <= p * p - 1) by (nonlinear_arith)
                requires
                    p >= 1,
            ;
            assert(p * p == pow2((2 * self.width) as nat) as int);
        }
        o2_rating * co2_rating
    }
}

} // verus!
