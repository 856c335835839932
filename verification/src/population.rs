//! Reproduction and population rules of predators and preys.
use vstd::prelude::*;
use crate::settings::{PRED_KILLS_TO_REPRODUCE, PREY_BIRTH_FRAMES, REPRO_COOLDOWN_FRAMES};

verus! {

/// Kill and reproduction counters of a predator.
#[derive(Debug, Clone, Copy, PartialEq, Eq, Structural)]
pub struct PredatorLife {
    /// Prey eaten since the last reproduction.
    pub eaten_prey: i32,
    /// Prey eaten over the whole life (never reset).
    pub lifetime_kills: i32,
    /// Frames left before the predator may reproduce again.
    pub repro_cooldown: i32,
}

impl PredatorLife {
    /// The counters stay in their ranges: nothing negative, the cooldown at
    /// most [`REPRO_COOLDOWN_FRAMES`].
    pub open spec fn wf(&self) -> bool {
        &&& 0 <= self.eaten_prey
        &&& 0 <= self.lifetime_kills
        &&& 0 <= self.repro_cooldown <= REPRO_COOLDOWN_FRAMES
    }

    /// A newborn predator: no kills, no cooldown.
    pub fn new() -> (life: Self)
        ensures
            life.wf(),
            life.eaten_prey == 0,
            life.lifetime_kills == 0,
            life.repro_cooldown == 0,
    {
        PredatorLife { eaten_prey: 0, lifetime_kills: 0, repro_cooldown: 0 }
    }

    /// One frame passes: a running cooldown counts down by one.
    pub fn tick_cooldown(&mut self)
        ensures
            final(self).repro_cooldown == if old(self).repro_cooldown > 0 {
                old(self).repro_cooldown - 1
            } else {
                old(self).repro_cooldown as int
            },
            final(self).eaten_prey == old(self).eaten_prey,
            final(self).lifetime_kills == old(self).lifetime_kills,
            old(self).wf() ==> final(self).wf(),
    {
        if self.repro_cooldown > 0 {
            self.repro_cooldown = self.repro_cooldown - 1;
        }
    }

    /// A prey was eaten: both kill counters grow by one.
    pub fn record_kill(&mut self)
        requires
            old(self).eaten_prey < i32::MAX,
            old(self).lifetime_kills < i32::MAX,
        ensures
            final(self).eaten_prey == old(self).eaten_prey + 1,
            final(self).lifetime_kills == old(self).lifetime_kills + 1,
            final(self).repro_cooldown == old(self).repro_cooldown,
            old(self).wf() ==> final(self).wf(),
    {
        self.eaten_prey = self.eaten_prey + 1;
        self.lifetime_kills = self.lifetime_kills + 1;
    }

    /// Decides a reproduction: none while the cooldown runs or before
    /// [`PRED_KILLS_TO_REPRODUCE`] kills; otherwise the kill counter resets,
    /// the cooldown starts, and `true` is returned.
    pub fn try_reproduce(&mut self) -> (born: bool)
        ensures
            born == (old(self).repro_cooldown <= 0 && old(self).eaten_prey >= PRED_KILLS_TO_REPRODUCE),
            born ==> final(self).eaten_prey == 0 && final(self).repro_cooldown == REPRO_COOLDOWN_FRAMES,
            !born ==> final(self).eaten_prey == old(self).eaten_prey && final(self).repro_cooldown
                == old(self).repro_cooldown,
            final(self).lifetime_kills == old(self).lifetime_kills,
            old(self).wf() ==> final(self).wf(),
    {
        if self.repro_cooldown > 0 {
            return false;
        }
        if self.eaten_prey < PRED_KILLS_TO_REPRODUCE {
            return false;
        }
        self.eaten_prey = 0;
        self.repro_cooldown = REPRO_COOLDOWN_FRAMES;
        true
    }
}

/// The birth timer of a prey after one frame, and whether a child is born:
/// the timer counts up; once it reaches [`PREY_BIRTH_FRAMES`] (the
/// reproduction rate times the frames per second) the prey gives
/// birth and the timer restarts at zero if `has_slot`, and otherwise the
/// timer stays at the threshold.
pub open spec fn birth_timer(rest_time: int, has_slot: bool) -> (i32, bool) {
    if rest_time + 1 < PREY_BIRTH_FRAMES {
        ((rest_time + 1) as i32, false)
    } else if !has_slot {
        (PREY_BIRTH_FRAMES, false)
    } else {
        (0i32, true)
    }
}

/// Advances the birth timer of a prey by one frame.
pub fn prey_birth_timer(rest_time: i32, has_slot: bool) -> (res: (i32, bool))
    requires
        rest_time < i32::MAX,
    ensures
        res == birth_timer(rest_time as int, has_slot),
{
    let t = rest_time + 1;
    if t < PREY_BIRTH_FRAMES {
        return (t, false);
    }
    if !has_slot {
        return (PREY_BIRTH_FRAMES, false);
    }
    (0, true)
}

/// The timer after one frame per entry of `slots` (whether a place is free
/// in that frame).
pub open spec fn timer_after(rest_time: int, slots: Seq<bool>) -> int
    decreases slots.len(),
{
    if slots.len() == 0 {
        rest_time
    } else {
        birth_timer(timer_after(rest_time, slots.drop_last()), slots.last()).0 as int
    }
}

/// Over any run of frames the birth timer stays within
/// `[0, PREY_BIRTH_FRAMES]` once inside.
pub proof fn lemma_prey_birth_timer_bounded(rest_time: int, slots: Seq<bool>)
    requires
        0 <= rest_time <= PREY_BIRTH_FRAMES,
    ensures
        0 <= timer_after(rest_time, slots) <= PREY_BIRTH_FRAMES,
    decreases slots.len(),
{
    if slots.len() > 0 {
        lemma_prey_birth_timer_bounded(rest_time, slots.drop_last());
    }
}

/// A prey held back by the population cap once its time has come keeps its
/// timer at the threshold through any number of frames without a free place,
/// and gives birth (timer back to zero) in the first frame with one.
pub proof fn lemma_held_back_prey_gives_birth(rest_time: int, blocked: nat)
    requires
        0 <= rest_time <= PREY_BIRTH_FRAMES,
        rest_time + 1 >= PREY_BIRTH_FRAMES,
        blocked >= 1,
    ensures
        timer_after(rest_time, Seq::new(blocked, |i: int| false)) == PREY_BIRTH_FRAMES,
        birth_timer(timer_after(rest_time, Seq::new(blocked, |i: int| false)), true) == (0i32, true),
    decreases blocked,
{
    let s = Seq::new(blocked, |i: int| false);
    assert(s.last() == false);
    if blocked > 1 {
        lemma_held_back_prey_gives_birth(rest_time, (blocked - 1) as nat);
        assert(s.drop_last() =~= Seq::new((blocked - 1) as nat, |i: int| false));
        assert(timer_after(rest_time, s.drop_last()) == PREY_BIRTH_FRAMES);
    } else {
        assert(s.drop_last() =~= Seq::<bool>::empty());
        assert(timer_after(rest_time, s.drop_last()) == rest_time);
    }
    assert(timer_after(rest_time, s) == birth_timer(timer_after(rest_time, s.drop_last()), false).0);
}

/// Below the threshold the birth timer counts up by one each frame whether
/// or not a place is free, and no child is born; the population cap only
/// matters once the threshold is reached. A child is born exactly when the
/// timer reaches the threshold in a frame with a free place.
pub proof fn lemma_timer_counts_up_below_threshold(rest_time: int, has_slot: bool)
    requires
        0 <= rest_time,
    ensures
        rest_time + 1 < PREY_BIRTH_FRAMES ==> birth_timer(rest_time, has_slot).0 == rest_time + 1,
        rest_time + 1 < PREY_BIRTH_FRAMES ==> birth_timer(rest_time, true) == birth_timer(
            rest_time,
            false,
        ),
        birth_timer(rest_time, has_slot).1 <==> (rest_time + 1 >= PREY_BIRTH_FRAMES && has_slot),
        birth_timer(rest_time, has_slot).1 ==> birth_timer(rest_time, has_slot).0 == 0,
        PREY_BIRTH_FRAMES == 14 * 30 * 30,
{
}

/// From timer `rest_time`, any run of frames that keeps the timer below the
/// threshold adds one per frame, whatever places were free in them.
pub proof fn lemma_timer_after_counts_frames(rest_time: int, slots: Seq<bool>)
    requires
        0 <= rest_time,
        rest_time + slots.len() < PREY_BIRTH_FRAMES,
    ensures
        timer_after(rest_time, slots) == rest_time + slots.len(),
    decreases slots.len(),
{
    if slots.len() > 0 {
        lemma_timer_after_counts_frames(rest_time, slots.drop_last());
    }
}

/// Free places left under a population cap (zero when the population is
/// already at or above the cap).
pub fn free_slots(population: usize, max: usize) -> (free: usize)
    ensures
        free == if population < max {
            max - population
        } else {
            0
        },
{
    max.saturating_sub(population)
}

/// Adds newborns to a population without exceeding the cap: only the first
/// `free_slots(population.len(), max)` newborns join.
pub fn admit_newborns<T>(population: &mut Vec<T>, newborns: Vec<T>, max: usize)
    ensures
        ({
            let free = if old(population)@.len() < max {
                max - old(population)@.len()
            } else {
                0
            };
            let k = if newborns@.len() < free {
                newborns@.len() as int
            } else {
                free as int
            };
            final(population)@ == old(population)@ + newborns@.subrange(0, k)
        }),
{
    let free = free_slots(population.len(), max);
    if free > 0 {
        let mut admitted = newborns;
        if free < admitted.len() {
            admitted.truncate(free);
        }
        population.append(&mut admitted);
    } else {
        assert(newborns@.subrange(0, 0) =~= Seq::<T>::empty());
        assert(population@ =~= old(population)@ + newborns@.subrange(0, 0));
    }
    proof {
        if free > 0 && newborns@.len() <= free {
            assert(newborns@.subrange(0, newborns@.len() as int) =~= newborns@);
        }
    }
}

/// Admitting newborns never pushes a population past its cap, and never
/// shrinks it.
pub proof fn lemma_admission_respects_cap<T>(before: Seq<T>, newborns: Seq<T>, max: usize, after: Seq<T>)
    requires
        ({
            let free = if before.len() < max {
                max - before.len()
            } else {
                0
            };
            let k = if newborns.len() < free {
                newborns.len() as int
            } else {
                free as int
            };
            after == before + newborns.subrange(0, k)
        }),
    ensures
        after.len() <= if before.len() < max {
            max as int
        } else {
            before.len() as int
        },
        after.len() >= before.len(),
{
}

/// Number of `true` entries.
pub open spec fn count_true(s: Seq<bool>) -> int
    decreases s.len(),
{
    if s.len() == 0 {
        0
    } else {
        count_true(s.drop_last()) + if s.last() {
            1int
        } else {
            0int
        }
    }
}

/// Counting births: one more frame entry adds one exactly when it is a
/// birth; a run with no birth counts zero and a run of births counts its
/// length.
pub proof fn lemma_count_true_counts(s: Seq<bool>, b: bool, n: nat)
    ensures
        count_true(s.push(b)) == count_true(s) + (if b {
            1int
        } else {
            0int
        }),
        count_true(Seq::new(n, |i: int| false)) == 0,
        count_true(Seq::new(n, |i: int| true)) == n,
        0 <= count_true(s) <= s.len(),
    decreases n + s.len(),
{
    assert(s.push(b).drop_last() =~= s);
    if n > 0 {
        lemma_count_true_counts(s, b, (n - 1) as nat);
        assert(Seq::new(n, |i: int| false).drop_last() =~= Seq::new((n - 1) as nat, |i: int| false));
        assert(Seq::new(n, |i: int| true).drop_last() =~= Seq::new((n - 1) as nat, |i: int| true));
    } else {
        assert(Seq::new(0, |i: int| false) =~= Seq::<bool>::empty());
        assert(Seq::new(0, |i: int| true) =~= Seq::<bool>::empty());
        if s.len() > 0 {
            lemma_count_true_counts(s.drop_last(), b, 0);
        }
    }
}

/// The birth step of the prey phase: in order, each prey's timer advances
/// (see [`birth_timer`]), with a free place as long as fewer than `allowed`
/// preys were born before it in this frame. Returns the new timers and who
/// gives birth.
pub fn prey_births(timers: &Vec<i32>, allowed: usize) -> (res: (Vec<i32>, Vec<bool>))
    requires
        forall|i: int| 0 <= i < timers@.len() ==> #[trigger] timers@[i] < i32::MAX,
    ensures
        res.0@.len() == timers@.len(),
        res.1@.len() == timers@.len(),
        forall|i: int|
            #![trigger res.0@[i]]
            0 <= i < timers@.len() ==> (res.0@[i], res.1@[i]) == birth_timer(
                timers@[i] as int,
                count_true(res.1@.subrange(0, i)) < allowed,
            ),
        count_true(res.1@) <= allowed,
{
    let mut new_timers: Vec<i32> = Vec::new();
    let mut births: Vec<bool> = Vec::new();
    let mut born: usize = 0;
    let mut i: usize = 0;
    while i < timers.len()
        invariant
            i <= timers@.len(),
            forall|j: int| 0 <= j < timers@.len() ==> #[trigger] timers@[j] < i32::MAX,
            new_timers@.len() == i,
            births@.len() == i,
            born == count_true(births@),
            born <= allowed,
            forall|j: int|
                #![trigger new_timers@[j]]
                0 <= j < i ==> (new_timers@[j], births@[j]) == birth_timer(
                    timers@[j] as int,
                    count_true(births@.subrange(0, j)) < allowed,
                ),
        decreases timers@.len() - i,
    {
        let ghost before = births@;
        let (t, b) = prey_birth_timer(timers[i], born < allowed);
        new_timers.push(t);
        births.push(b);
        assert(births@.drop_last() =~= before);
        assert(births@.subrange(0, i as int) =~= before);
        assert forall|j: int| 0 <= j < i implies births@.subrange(0, j) =~= before.subrange(0, j) by {}
        if b {
            born = born + 1;
        }
        i = i + 1;
    }
    assert(births@.subrange(0, births@.len() as int) =~= births@);
    (new_timers, births)
}

/// Which animals stay after a hunt: those whose identity was not eaten.
pub fn keep_uneaten(ids: &Vec<usize>, eaten: &Vec<usize>) -> (keep: Vec<bool>)
    ensures
        keep@.len() == ids@.len(),
        forall|i: int| 0 <= i < ids@.len() ==> #[trigger] keep@[i] == !eaten@.contains(ids@[i]),
{
    let mut keep: Vec<bool> = Vec::new();
    let mut i: usize = 0;
    while i < ids.len()
        invariant
            i <= ids@.len(),
            keep@.len() == i,
            forall|j: int| 0 <= j < i ==> #[trigger] keep@[j] == !eaten@.contains(ids@[j]),
        decreases ids@.len() - i,
    {
        let id = ids[i];
        let mut found = false;
        let mut k: usize = 0;
        while k < eaten.len()
            invariant
                k <= eaten@.len(),
                found == exists|e: int| 0 <= e < k && eaten@[e] == id,
            decreases eaten@.len() - k,
        {
            if eaten[k] == id {
                found = true;
            }
            k = k + 1;
        }
        keep.push(!found);
        i = i + 1;
    }
    keep
}

/// A headless run goes on while steps remain and both kinds are alive.
pub fn keep_running(step: i64, max_steps: i64, predators: usize, preys: usize) -> (b: bool)
    ensures
        b == (step < max_steps && predators > 0 && preys > 0),
{
    step < max_steps && predators > 0 && preys > 0
}

/// A run survived when both kinds are alive at its end.
pub fn survived(predators: usize, preys: usize) -> (b: bool)
    ensures
        b == (predators > 0 && preys > 0),
{
    predators > 0 && preys > 0
}

} // verus!
