//! Lanternfish population, one fish per element: each fish counts down
//! the days until it spawns a new fish.
use vstd::prelude::*;

verus! {

/// Days a newly spawned fish waits before its first spawn.
pub const INIT_SPAWN_DAYS: i8 = 9;

/// Days between spawns for an established fish.
pub const SPAWN_DAYS: i8 = 7;

/// One fish: the days left until it spawns.
#[derive(Clone, Copy, Debug)]
pub struct Fish {
    /// Days left until this fish spawns.
    pub days_until_spawn: i8,
}

impl Fish {
    /// A newly spawned fish.
    pub fn new() -> (f: Fish)
        ensures
            f.days_until_spawn == INIT_SPAWN_DAYS,
    {
        Fish { days_until_spawn: INIT_SPAWN_DAYS }
    }

    /// One day passes: the counter falls by one, and a fish whose
    /// counter runs out resets and spawns a new fish.
    pub fn tick(&mut self) -> (r: Option<Fish>)
        requires
            old(self).days_until_spawn > i8::MIN,
        ensures
            old(self).days_until_spawn >= 1 ==> final(self).days_until_spawn == old(
                self,
            ).days_until_spawn - 1 && r is None,
            old(self).days_until_spawn < 1 ==> final(self).days_until_spawn == old(
                self,
            ).days_until_spawn + SPAWN_DAYS - 1 && (match r {
                Some(f) => f.days_until_spawn == INIT_SPAWN_DAYS,
                None => false,
            }),
    {
        self.days_until_spawn = self.days_until_spawn - 1;
        if self.days_until_spawn < 0 {
            self.days_until_spawn = self.days_until_spawn + SPAWN_DAYS;
            return Some(Fish::new());
        }
        None
    }
}

/// The spawn counters of a population.
pub open spec fn days_view(fish: Seq<Fish>) -> Seq<int> {
    Seq::new(fish.len(), |i: int| fish[i].days_until_spawn as int)
}

/// Counters after one day, for the fish already present: run-out
/// counters reset, the others fall by one.
pub open spec fn ticked(days: Seq<int>) -> Seq<int> {
    Seq::new(days.len(), |i: int| if days[i] >= 1 {
        days[i] - 1
    } else {
        days[i] + SPAWN_DAYS - 1
    })
}

/// Counters of the fish spawned during one day, in the order their
/// parents appear; each new fish has already lived its first day.
pub open spec fn spawned(days: Seq<int>) -> Seq<int>
    decreases days.len(),
{
    if days.len() == 0 {
        Seq::empty()
    } else {
        spawned(days.drop_last()) + if days.last() < 1 {
            seq![INIT_SPAWN_DAYS as int - 1]
        } else {
            Seq::empty()
        }
    }
}

/// The whole population after one day: the surviving counters followed
/// by the day's newly spawned fish.
pub open spec fn day_step(days: Seq<int>) -> Seq<int> {
    ticked(days) + spawned(days)
}

/// The population after `d` days.
pub open spec fn days_after(days: Seq<int>, d: int) -> Seq<int>
    decreases d,
{
    if d <= 0 {
        days
    } else {
        day_step(days_after(days, d - 1))
    }
}

/// All counters are above the machine minimum, so a tick cannot
/// underflow.
pub open spec fn counters_ok(days: Seq<int>) -> bool {
    forall|i: int| 0 <= i < days.len() ==> i8::MIN < #[trigger] days[i] <= i8::MAX
}

/// A day preserves the machine-range bound on every counter.
pub proof fn lemma_day_step_ok(days: Seq<int>)
    requires
        counters_ok(days),
    ensures
        counters_ok(day_step(days)),
{
    lemma_spawned_values(days);
}

/// Every spawned counter equals the initial counter less one day.
pub proof fn lemma_spawned_values(days: Seq<int>)
    ensures
        spawned(days).len() <= days.len(),
        forall|i: int|
            0 <= i < spawned(days).len() ==> #[trigger] spawned(days)[i] == INIT_SPAWN_DAYS as int
                - 1,
    decreases days.len(),
{
    if days.len() > 0 {
        lemma_spawned_values(days.drop_last());
    }
}

/// A school of fish, one element per fish.
pub struct School {
    /// The fish alive, in spawn order.
    pub fish: Vec<Fish>,
}

impl School {
    /// Advances the population by the given number of days: each day
    /// every fish ticks, and the day's offspring join the school.
    pub fn tick(&mut self, days: usize)
        requires
            counters_ok(days_view(old(self).fish@)),
        ensures
            days_view(final(self).fish@) == days_after(days_view(old(self).fish@), days as int),
    {
        let ghost s0 = days_view(self.fish@);
        let mut day: usize = 0;
        while day < days
            invariant
                0 <= day <= days,
                s0 == days_view(old(self).fish@),
                counters_ok(days_view(self.fish@)),
                days_view(self.fish@) == days_after(s0, day as int),
            decreases days - day,
        {
            let ghost cur = days_view(self.fish@);
            let count = self.fish.len();
            let mut babies: Vec<Fish> = Vec::new();
            let mut i: usize = 0;
            while i < count
                invariant
                    0 <= i <= count,
                    count == self.fish@.len(),
                    counters_ok(cur),
                    cur.len() == count,
                    forall|j: int| 0 <= j < i ==> days_view(self.fish@)[j] == ticked(cur)[j],
                    forall|j: int| i <= j < count ==> days_view(self.fish@)[j] == cur[j],
                    days_view(babies@) == spawned(cur.take(i as int)),
                decreases count - i,
            {
                let mut f = self.fish[i];
                proof {
                    assert(cur[i as int] == f.days_until_spawn as int);
                    assert(cur.take(i as int + 1).drop_last() =~= cur.take(i as int));
                }
                let baby_opt = f.tick();
                self.fish.set(i, f);
                if let Some(mut b) = baby_opt {
                    let ghost pre = days_view(babies@);
                    b.tick();
                    babies.push(b);
                    proof {
                        assert(days_view(babies@) =~= pre + seq![
                            INIT_SPAWN_DAYS as int - 1,
                        ]);
                        assert(days_view(babies@) =~= spawned(cur.take(i as int + 1)));
                    }
                } else {
                    proof {
                        assert(days_view(babies@) =~= spawned(cur.take(i as int + 1)));
                    }
                }
                proof {
                    assert(forall|j: int|
                        0 <= j < i ==> days_view(self.fish@)[j] == ticked(cur)[j]);
                }
                i += 1;
            }
            proof {
                assert(cur.take(count as int) =~= cur);
                assert(days_view(self.fish@) =~= ticked(cur));
                assert(days_view(babies@) == spawned(cur));
            }
            let ghost base = days_view(self.fish@);
            proof {
                assert(days_view(self.fish@) =~= base + days_view(babies@).take(0));
            }
            let baby_count = babies.len();
            let mut t: usize = 0;
            while t < baby_count
                invariant
                    0 <= t <= baby_count,
                    baby_count == babies@.len(),
                    days_view(self.fish@) == base + days_view(babies@).take(t as int),
                decreases baby_count - t,
            {
                self.fish.push(babies[t]);
                proof {
                    let bv = days_view(babies@);
                    assert(days_view(self.fish@) =~= (base + bv.take(t as int)).push(
                        bv[t as int],
                    ));
                    assert(bv.take(t as int + 1) =~= bv.take(t as int).push(bv[t as int]));
                    assert(base + bv.take(t as int + 1) =~= (base + bv.take(t as int)).push(
                        bv[t as int],
                    ));
                }
                t += 1;
            }
            proof {
                assert(days_view(babies@).take(baby_count as int) =~= days_view(babies@));
                assert(days_view(self.fish@) =~= day_step(cur));
                lemma_day_step_ok(cur);
            }
            day += 1;
        }
    }
}

} // verus!
