//! Lanternfish population tracked as counts: element `d` holds how many
//! fish have `d` days left until they spawn.
use vstd::prelude::*;

verus! {

/// Number of counter groups: a new fish starts at the highest counter.
pub const GROUPS: usize = 9;

/// Sum of all group counts: the population size.
pub open spec fn counts_total(s: Seq<usize>) -> int
    decreases s.len(),
{
    if s.len() == 0 {
        0
    } else {
        counts_total(s.drop_last()) + s.last() as int
    }
}

/// The population size is never negative.
pub proof fn lemma_counts_total_nonneg(s: Seq<usize>)
    ensures
        counts_total(s) >= 0,
    decreases s.len(),
{
    if s.len() > 0 {
        lemma_counts_total_nonneg(s.drop_last());
    }
}

/// No group exceeds the population size.
pub proof fn lemma_counts_elem_bound(s: Seq<usize>, i: int)
    requires
        0 <= i < s.len(),
    ensures
        s[i] as int <= counts_total(s),
    decreases s.len(),
{
    if i == s.len() - 1 {
        lemma_counts_total_nonneg(s.drop_last());
    } else {
        lemma_counts_elem_bound(s.drop_last(), i);
    }
}

/// Two distinct groups together do not exceed the population size.
pub proof fn lemma_counts_pair_bound(s: Seq<usize>, i: int, j: int)
    requires
        0 <= i < j < s.len(),
    ensures
        s[i] as int + s[j] as int <= counts_total(s),
    decreases s.len(),
{
    if j == s.len() - 1 {
        lemma_counts_elem_bound(s.drop_last(), i);
    } else {
        lemma_counts_pair_bound(s.drop_last(), i, j);
    }
}

/// One day: every group shifts down one counter; the group that ran out
/// re-enters at counter six and spawns as many new fish at the highest
/// counter.
pub open spec fn counts_step(s: Seq<usize>) -> Seq<int> {
    Seq::new(s.len(), |i: int| if i == 6 {
        s[7] as int + s[0] as int
    } else if i == 8 {
        s[0] as int
    } else {
        s[i + 1] as int
    })
}

/// The group counts as mathematical integers.
pub open spec fn counts_view(s: Seq<usize>) -> Seq<int> {
    Seq::new(s.len(), |i: int| s[i] as int)
}

/// The group counts after `d` days, as mathematical integers; defined
/// only through repeated single days.
pub open spec fn counts_after(s: Seq<usize>, d: int) -> Seq<int>
    decreases d,
{
    if d <= 0 {
        counts_view(s)
    } else {
        int_counts_step(counts_after(s, d - 1))
    }
}

/// One day over mathematical counts.
pub open spec fn int_counts_step(s: Seq<int>) -> Seq<int> {
    Seq::new(s.len(), |i: int| if i == 6 {
        s[7] + s[0]
    } else if i == 8 {
        s[0]
    } else {
        s[i + 1]
    })
}

/// Population size over mathematical counts.
pub open spec fn int_counts_total(s: Seq<int>) -> int
    decreases s.len(),
{
    if s.len() == 0 {
        0
    } else {
        int_counts_total(s.drop_last()) + s.last()
    }
}

/// A school of fish as nine group counts.
pub struct School {
    /// `fish[d]` is the number of fish with `d` days left to spawn.
    pub fish: Vec<usize>,
}

impl School {
    /// Advances the population by the given number of days.  The
    /// population must fit the machine word on every intermediate day.
    pub fn tick(&mut self, days: usize)
        requires
            old(self).fish@.len() == GROUPS,
            forall|d: int|
                0 <= d <= days ==> int_counts_total(#[trigger] counts_after(old(self).fish@, d))
                    <= usize::MAX as int,
        ensures
            final(self).fish@.len() == GROUPS,
            counts_view(final(self).fish@) == counts_after(old(self).fish@, days as int),
    {
        let ghost s0 = self.fish@;
        let mut day: usize = 0;
        while day < days
            invariant
                0 <= day <= days,
                s0 == old(self).fish@,
                self.fish@.len() == GROUPS,
                forall|d: int|
                    0 <= d <= days ==> int_counts_total(#[trigger] counts_after(s0, d))
                        <= usize::MAX as int,
                counts_view(self.fish@) == counts_after(s0, day as int),
            decreases days - day,
        {
            let ghost cur = self.fish@;
            proof {
                assert(int_counts_total(counts_after(s0, day as int)) <= usize::MAX as int);
                lemma_int_view_total(cur);
                lemma_counts_pair_bound(cur, 0, 7);
                lemma_counts_elem_bound(cur, 0);
            }
            let spawning = self.fish[0];
            let mut next: Vec<usize> = Vec::new();
            next.push(self.fish[1]);
            next.push(self.fish[2]);
            next.push(self.fish[3]);
            next.push(self.fish[4]);
            next.push(self.fish[5]);
            next.push(self.fish[6]);
            next.push(self.fish[7] + spawning);
            next.push(self.fish[8]);
            next.push(spawning);
            self.fish = next;
            proof {
                assert(counts_view(self.fish@) =~= int_counts_step(counts_view(cur)));
                assert(counts_view(self.fish@) =~= counts_after(s0, day as int + 1));
            }
            day += 1;
        }
    }
}

/// The two total measures agree on machine counts.
pub proof fn lemma_int_view_total(s: Seq<usize>)
    ensures
        int_counts_total(counts_view(s)) == counts_total(s),
    decreases s.len(),
{
    if s.len() > 0 {
        lemma_int_view_total(s.drop_last());
        assert(counts_view(s).drop_last() =~= counts_view(s.drop_last()));
    }
}

} // verus!
