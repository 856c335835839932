use predator_vs_prey::population::{
    admit_newborns, free_slots, keep_running, keep_uneaten, prey_birth_timer, prey_births, survived,
    PredatorLife,
};
use predator_vs_prey::settings::{
    IdGenerator, MutationSettings, SettingCall, DEFAULT_PRED_INIT_MUT, DEFAULT_PREY_INIT_MUT, PREY_BIRTH_FRAMES,
    PRED_KILLS_TO_REPRODUCE, REPRO_COOLDOWN_FRAMES,
};

#[test]
fn predator_reproduces_after_enough_kills() {
    let mut life = PredatorLife::new();
    for _ in 0..PRED_KILLS_TO_REPRODUCE - 1 {
        life.record_kill();
        assert!(!life.try_reproduce());
    }
    life.record_kill();
    assert!(life.try_reproduce());
    assert_eq!(life.eaten_prey, 0);
    assert_eq!(life.lifetime_kills, PRED_KILLS_TO_REPRODUCE);
    assert_eq!(life.repro_cooldown, REPRO_COOLDOWN_FRAMES);
}

#[test]
fn cooldown_blocks_reproduction() {
    let mut life = PredatorLife::new();
    for _ in 0..PRED_KILLS_TO_REPRODUCE {
        life.record_kill();
    }
    assert!(life.try_reproduce());
    for _ in 0..PRED_KILLS_TO_REPRODUCE {
        life.record_kill();
    }
    assert!(!life.try_reproduce());
    for _ in 0..REPRO_COOLDOWN_FRAMES {
        life.tick_cooldown();
    }
    assert_eq!(life.repro_cooldown, 0);
    life.tick_cooldown();
    assert_eq!(life.repro_cooldown, 0);
    assert!(life.try_reproduce());
}

#[test]
fn prey_timer_counts_to_birth() {
    assert_eq!(PREY_BIRTH_FRAMES, 12600);
    assert_eq!(prey_birth_timer(419, true), (420, false));
    assert_eq!(prey_birth_timer(0, true), (1, false));
    assert_eq!(prey_birth_timer(PREY_BIRTH_FRAMES - 2, true), (PREY_BIRTH_FRAMES - 1, false));
    assert_eq!(prey_birth_timer(PREY_BIRTH_FRAMES - 1, true), (0, true));
    assert_eq!(prey_birth_timer(PREY_BIRTH_FRAMES - 1, false), (PREY_BIRTH_FRAMES, false));
    assert_eq!(prey_birth_timer(PREY_BIRTH_FRAMES, false), (PREY_BIRTH_FRAMES, false));
}

#[test]
fn newborns_fill_free_slots_only() {
    assert_eq!(free_slots(3, 10), 7);
    assert_eq!(free_slots(10, 10), 0);
    assert_eq!(free_slots(12, 10), 0);

    let mut pop = vec![1, 2, 3];
    admit_newborns(&mut pop, vec![4, 5, 6], 5);
    assert_eq!(pop, vec![1, 2, 3, 4, 5]);

    let mut full = vec![1, 2];
    admit_newborns(&mut full, vec![9], 2);
    assert_eq!(full, vec![1, 2]);

    let mut room = vec![1];
    admit_newborns(&mut room, vec![7, 8], 10);
    assert_eq!(room, vec![1, 7, 8]);
}

#[test]
fn mutation_settings_get_and_set() {
    let mut s = MutationSettings::new();
    assert_eq!(s.prey_init_mut(), DEFAULT_PREY_INIT_MUT);
    assert_eq!(s.pred_init_mut(), DEFAULT_PRED_INIT_MUT);
    s.set_prey_init_mut(3);
    assert_eq!(s.prey_init_mut(), 3);
    assert_eq!(s.pred_init_mut(), DEFAULT_PRED_INIT_MUT);
    s.set_pred_init_mut(9);
    assert_eq!(s.pred_init_mut(), 9);
    assert_eq!(s.prey_init_mut(), 3);
}

#[test]
fn held_back_prey_gives_birth_at_first_free_slot() {
    let mut t = PREY_BIRTH_FRAMES - 1;
    for _ in 0..5 {
        let (next, born) = prey_birth_timer(t, false);
        assert!(!born);
        assert_eq!(next, PREY_BIRTH_FRAMES);
        t = next;
    }
    assert_eq!(prey_birth_timer(t, true), (0, true));
}

#[test]
fn settings_hold_the_last_value_set() {
    let mut s = MutationSettings::new();
    let calls = [
        SettingCall::SetPreyInitMut(3),
        SettingCall::SetPredInitMut(8),
        SettingCall::SetPreyInitMut(5),
    ];
    for c in calls {
        s.apply(c);
    }
    assert_eq!(s.prey_init_mut(), 5);
    assert_eq!(s.pred_init_mut(), 8);
    let mut fresh = MutationSettings::new();
    fresh.apply(SettingCall::SetPredInitMut(1));
    assert_eq!(fresh.prey_init_mut(), DEFAULT_PREY_INIT_MUT);
}

#[test]
fn identities_are_distinct() {
    let mut ids = IdGenerator::new();
    let a = ids.next_id();
    let b = ids.next_id();
    let c = ids.next_id();
    assert_eq!((a, b, c), (1, 2, 3));
    assert_eq!(ids.upcoming_id(), 4);
}

#[test]
fn prey_birth_threshold_is_rate_times_fps() {
    assert_eq!(PREY_BIRTH_FRAMES, 14 * 30 * 30);
    assert_eq!(prey_birth_timer(PREY_BIRTH_FRAMES - 2, true), (PREY_BIRTH_FRAMES - 1, false));
    assert_eq!(prey_birth_timer(PREY_BIRTH_FRAMES - 1, true), (0, true));
}

#[test]
fn prey_births_respect_the_free_places() {
    let t = PREY_BIRTH_FRAMES - 1;
    let (timers, births) = prey_births(&vec![t, 5, t, t], 2);
    assert_eq!(births, vec![true, false, true, false]);
    assert_eq!(timers, vec![0, 6, 0, PREY_BIRTH_FRAMES]);
    let (_, none) = prey_births(&vec![t, t], 0);
    assert_eq!(none, vec![false, false]);
}

#[test]
fn eaten_animals_are_dropped() {
    assert_eq!(keep_uneaten(&vec![4, 7, 9, 7], &vec![7, 1]), vec![true, false, true, false]);
    assert_eq!(keep_uneaten(&vec![1], &Vec::new()), vec![true]);
}

#[test]
fn headless_run_rule() {
    assert!(keep_running(0, 10, 1, 1));
    assert!(!keep_running(10, 10, 1, 1));
    assert!(!keep_running(3, 10, 0, 5));
    assert!(survived(2, 3));
    assert!(!survived(2, 0));
}
