//! Integer settings of the simulation and the run-time adjustable numbers
//! of initial mutations.
use vstd::prelude::*;

verus! {

/// Seed of the simulation's random number generator.
pub const SEED: u64 = 61;

/// Initial number of predators.
pub const PRED_INIT_NUMB: usize = 110;

/// Initial number of preys.
pub const PREY_INIT_NUMB: usize = 450;

/// Population cap for predators.
pub const MAX_PRED_COUNT: usize = 175;

/// Population cap for preys.
pub const MAX_PREY_COUNT: usize = 800;

/// World width in pixels.
pub const SCREEN_WIDTH: i32 = 1000;

/// World height in pixels.
pub const SCREEN_HEIGHT: i32 = 1000;

/// Frames per virtual second.
pub const FRAMES_PER_SECOND: i32 = 30;

/// Frames a predator waits after reproducing before it may reproduce again.
pub const REPRO_COOLDOWN_FRAMES: i32 = 1 * FRAMES_PER_SECOND;

/// Prey kills a predator needs before it reproduces.
pub const PRED_KILLS_TO_REPRODUCE: i32 = 3;

/// Seconds of the prey reproduction rate; the birth threshold is this rate
/// in frames, times the frames per second (see [`PREY_BIRTH_FRAMES`]).
pub const PREY_SECONDS_UNTIL_BIRTH: i32 = 14;

/// The prey reproduction rate: 14 seconds expressed in frames.
pub const PREY_REPRODUCATION_RATE: i32 = PREY_SECONDS_UNTIL_BIRTH * FRAMES_PER_SECOND;

/// Frames from a prey's birth (or last child) to its next child: the
/// reproduction rate times the frames per second.
pub const PREY_BIRTH_FRAMES: i32 = PREY_REPRODUCATION_RATE * FRAMES_PER_SECOND;

/// Number of sight rays of a prey.
pub const PREY_SIGHT_COUNT: usize = 36;

/// Number of sight rays of a predator.
pub const PRED_SIGHT_COUNT: usize = 24;

/// Number of frames recorded by default.
pub const DEFAULT_TOTAL_FRAMES: i32 = 40000;

/// Alternative activation functions (not in use).
pub const REAC: bool = false;

/// Number of initial mutations of a prey's brain by default.
pub const DEFAULT_PREY_INIT_MUT: usize = 15;

/// Number of initial mutations of a predator's brain by default.
pub const DEFAULT_PRED_INIT_MUT: usize = 15;

/// The rules' numbers in their own units: thirty frames make a second; a
/// predator waits one second between children and needs three kills for
/// one; a prey's next child comes 14 seconds of frames times the frames per
/// second after its last, 12600 frames; the populations start at 110 and
/// 450 and are capped at 175 and 800; new brains get 15 initial mutations.
pub proof fn lemma_rule_numbers()
    ensures
        FRAMES_PER_SECOND == 30,
        REPRO_COOLDOWN_FRAMES == FRAMES_PER_SECOND,
        PRED_KILLS_TO_REPRODUCE == 3,
        PREY_SECONDS_UNTIL_BIRTH == 14,
        PREY_BIRTH_FRAMES == PREY_SECONDS_UNTIL_BIRTH * FRAMES_PER_SECOND * FRAMES_PER_SECOND,
        PREY_BIRTH_FRAMES == 12600,
        PRED_INIT_NUMB == 110 && PREY_INIT_NUMB == 450,
        MAX_PRED_COUNT == 175 && MAX_PREY_COUNT == 800,
        DEFAULT_PREY_INIT_MUT == 15 && DEFAULT_PRED_INIT_MUT == 15,
{
}

/// Run-time adjustable numbers of initial brain mutations.
pub struct MutationSettings {
    prey_init_mut: usize,
    pred_init_mut: usize,
}

impl MutationSettings {
    /// The default numbers of initial mutations.
    pub fn new() -> (s: Self)
        ensures
            s.spec_prey_init_mut() == DEFAULT_PREY_INIT_MUT,
            s.spec_pred_init_mut() == DEFAULT_PRED_INIT_MUT,
    {
        MutationSettings { prey_init_mut: DEFAULT_PREY_INIT_MUT, pred_init_mut: DEFAULT_PRED_INIT_MUT }
    }

    pub closed spec fn spec_prey_init_mut(&self) -> usize {
        self.prey_init_mut
    }

    pub closed spec fn spec_pred_init_mut(&self) -> usize {
        self.pred_init_mut
    }

    /// Initial mutations of a newly created prey's brain.
    pub fn prey_init_mut(&self) -> (v: usize)
        ensures
            v == self.spec_prey_init_mut(),
    {
        self.prey_init_mut
    }

    /// Sets the initial mutations of a prey's brain; the predators' stays.
    pub fn set_prey_init_mut(&mut self, v: usize)
        ensures
            final(self).spec_prey_init_mut() == v,
            final(self).spec_pred_init_mut() == old(self).spec_pred_init_mut(),
    {
        self.prey_init_mut = v;
    }

    /// Initial mutations of a newly created predator's brain.
    pub fn pred_init_mut(&self) -> (v: usize)
        ensures
            v == self.spec_pred_init_mut(),
    {
        self.pred_init_mut
    }

    /// Sets the initial mutations of a predator's brain; the preys' stays.
    pub fn set_pred_init_mut(&mut self, v: usize)
        ensures
            final(self).spec_pred_init_mut() == v,
            final(self).spec_prey_init_mut() == old(self).spec_prey_init_mut(),
    {
        self.pred_init_mut = v;
    }
}

/// A change of the run-time mutation settings.
#[derive(Debug, Clone, Copy, PartialEq, Eq, Structural)]
pub enum SettingCall {
    SetPreyInitMut(usize),
    SetPredInitMut(usize),
}

/// What one change does: the named count takes the value, the other keeps
/// its own.
pub open spec fn call_effect(a: MutationSettings, b: MutationSettings, call: SettingCall) -> bool {
    match call {
        SettingCall::SetPreyInitMut(v) => b.spec_prey_init_mut() == v && b.spec_pred_init_mut()
            == a.spec_pred_init_mut(),
        SettingCall::SetPredInitMut(v) => b.spec_pred_init_mut() == v && b.spec_prey_init_mut()
            == a.spec_prey_init_mut(),
    }
}

/// The value of the preys' count after `calls`: the last one set, or
/// `default` when none was set.
pub open spec fn last_prey_value(calls: Seq<SettingCall>, default: usize) -> usize
    decreases calls.len(),
{
    if calls.len() == 0 {
        default
    } else {
        match calls.last() {
            SettingCall::SetPreyInitMut(v) => v,
            SettingCall::SetPredInitMut(_) => last_prey_value(calls.drop_last(), default),
        }
    }
}

/// The value of the predators' count after `calls`: the last one set, or
/// `default` when none was set.
pub open spec fn last_pred_value(calls: Seq<SettingCall>, default: usize) -> usize
    decreases calls.len(),
{
    if calls.len() == 0 {
        default
    } else {
        match calls.last() {
            SettingCall::SetPredInitMut(v) => v,
            SettingCall::SetPreyInitMut(_) => last_pred_value(calls.drop_last(), default),
        }
    }
}

/// Setting the preys' count to `v` makes `v` its value whatever came
/// before, and setting the predators' count leaves the preys' one as it
/// was (and the other way round); with no change the default holds.
pub proof fn lemma_last_value_wins(calls: Seq<SettingCall>, v: usize, default: usize)
    ensures
        last_prey_value(calls.push(SettingCall::SetPreyInitMut(v)), default) == v,
        last_prey_value(calls.push(SettingCall::SetPredInitMut(v)), default) == last_prey_value(
            calls,
            default,
        ),
        last_pred_value(calls.push(SettingCall::SetPredInitMut(v)), default) == v,
        last_pred_value(calls.push(SettingCall::SetPreyInitMut(v)), default) == last_pred_value(
            calls,
            default,
        ),
        last_prey_value(Seq::empty(), default) == default,
        last_pred_value(Seq::empty(), default) == default,
{
    assert(calls.push(SettingCall::SetPreyInitMut(v)).drop_last() =~= calls);
    assert(calls.push(SettingCall::SetPredInitMut(v)).drop_last() =~= calls);
}

impl MutationSettings {
    /// Applies one change.
    pub fn apply(&mut self, call: SettingCall)
        ensures
            call_effect(*old(self), *final(self), call),
    {
        match call {
            SettingCall::SetPreyInitMut(v) => self.set_prey_init_mut(v),
            SettingCall::SetPredInitMut(v) => self.set_pred_init_mut(v),
        }
    }
}

/// Over any sequence of changes starting from the defaults, each getter
/// returns the value most recently set for it, or its default when it was
/// never set.
pub proof fn lemma_settings_after_calls(states: Seq<MutationSettings>, calls: Seq<SettingCall>)
    requires
        states.len() == calls.len() + 1,
        states[0].spec_prey_init_mut() == DEFAULT_PREY_INIT_MUT,
        states[0].spec_pred_init_mut() == DEFAULT_PRED_INIT_MUT,
        forall|i: int| 0 <= i < calls.len() ==> call_effect(states[i], states[i + 1], #[trigger] calls[i]),
    ensures
        states.last().spec_prey_init_mut() == last_prey_value(calls, DEFAULT_PREY_INIT_MUT),
        states.last().spec_pred_init_mut() == last_pred_value(calls, DEFAULT_PRED_INIT_MUT),
    decreases calls.len(),
{
    if calls.len() > 0 {
        let n = calls.len() as int;
        assert forall|i: int| 0 <= i < calls.drop_last().len() implies call_effect(
            states.drop_last()[i],
            states.drop_last()[i + 1],
            #[trigger] calls.drop_last()[i],
        ) by {
            assert(call_effect(states[i], states[i + 1], calls[i]));
        }
        lemma_settings_after_calls(states.drop_last(), calls.drop_last());
        assert(call_effect(states[n - 1], states[n], calls[n - 1]));
    }
}

/// Issues identities for new animals: 1, 2, 3, ...
pub struct IdGenerator {
    next: usize,
}

/// One call of [`IdGenerator::next_id`]: it hands out `id`, the identity
/// that `a` had up next, and `b` has the following one up next.
pub open spec fn issued(a: IdGenerator, b: IdGenerator, id: usize) -> bool {
    id == a.upcoming() && b.upcoming() == id + 1
}

impl IdGenerator {
    /// Identities are never zero.
    #[verifier::type_invariant]
    closed spec fn upcoming_positive(&self) -> bool {
        self.next >= 1
    }

    /// The identity that the next call hands out.
    pub closed spec fn upcoming(&self) -> usize {
        self.next
    }

    /// Identities start at 1.
    pub fn new() -> (g: Self)
        ensures
            g.upcoming() == 1,
    {
        IdGenerator { next: 1 }
    }

    /// The identity that the next call hands out.
    pub fn upcoming_id(&self) -> (n: usize)
        ensures
            n == self.upcoming(),
            n >= 1,
    {
        proof {
            use_type_invariant(self);
        }
        self.next
    }

    /// Hands out a fresh identity, at least 1; every later one is larger,
    /// so no two animals share one.
    pub fn next_id(&mut self) -> (id: usize)
        requires
            old(self).upcoming() < usize::MAX,
        ensures
            issued(*old(self), *final(self), id),
            id >= 1,
    {
        proof {
            use_type_invariant(&*self);
        }
        let id = self.next;
        self.next = self.next + 1;
        id
    }
}

/// Over any run of calls, the identities handed out strictly increase and
/// none is below the first one up next; so none is handed out twice.
pub proof fn lemma_ids_strictly_increase(gens: Seq<IdGenerator>, ids: Seq<usize>)
    requires
        gens.len() == ids.len() + 1,
        forall|i: int| 0 <= i < ids.len() ==> issued(gens[i], gens[i + 1], #[trigger] ids[i]),
    ensures
        forall|i: int, j: int| 0 <= i < j < ids.len() ==> ids[i] < ids[j],
        forall|i: int| 0 <= i < ids.len() ==> gens[0].upcoming() <= #[trigger] ids[i],
        forall|i: int| 0 <= i < ids.len() ==> ids[i] < gens.last().upcoming(),
    decreases ids.len(),
{
    if ids.len() > 0 {
        let n = ids.len() as int;
        let g2 = gens.drop_last();
        let i2 = ids.drop_last();
        assert forall|i: int| 0 <= i < i2.len() implies issued(g2[i], g2[i + 1], #[trigger] i2[i]) by {
            assert(issued(gens[i], gens[i + 1], ids[i]));
        }
        lemma_ids_strictly_increase(g2, i2);
        assert(issued(gens[n - 1], gens[n], ids[n - 1]));
        assert forall|i: int| 0 <= i < ids.len() implies gens[0].upcoming() <= #[trigger] ids[i] by {
            if i < n - 1 {
                assert(i2[i] == ids[i]);
            } else if n > 1 {
                assert(i2[n - 2] == ids[n - 2]);
            }
        }
        assert forall|i: int, j: int| 0 <= i < j < ids.len() implies ids[i] < ids[j] by {
            assert(i2[i] == ids[i]);
            if j < n - 1 {
                assert(i2[j] == ids[j]);
            }
        }
    }
}

} // verus!
