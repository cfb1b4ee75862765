use rust_lander::ground_cells::{wrap_value, BY};
use rust_lander::ids::get_next_id;
use rust_lander::lander::{CrashFrame, CrashState, CRASH_FRAMES, START_LIVES};
use rust_lander::rescue::{count_landing, rescue_spawn_cell, tally_rescues, total_to_rescue, RescueContact, RESCUE_LIMIT};

#[test]
fn wrap_value_folds_into_the_grid() {
    assert_eq!(wrap_value(0), 0);
    assert_eq!(wrap_value(2), 2);
    assert_eq!(wrap_value(3), 0);
    assert_eq!(wrap_value(7), 1);
    assert_eq!(wrap_value(-1), 2);
    assert_eq!(wrap_value(-3), 0);
    assert_eq!(wrap_value(-1000), 2);
    assert_eq!(wrap_value(1000), 1);
    assert_eq!(BY, 3);
}

#[test]
fn next_ids_count_up() {
    let mut next = 1u128;
    assert_eq!(get_next_id(&mut next), 1);
    assert_eq!(get_next_id(&mut next), 2);
    assert_eq!(next, 3);
}

#[test]
fn crash_costs_a_life_and_lasts_161_frames() {
    let mut s = CrashState::new();
    assert_eq!(s.lives, START_LIVES);
    assert!(matches!(s.update(0), CrashFrame::Flying));
    s.crash();
    assert_eq!(s.lives, START_LIVES - 1);
    for tick in 0..CRASH_FRAMES {
        match s.update(tick) {
            CrashFrame::Wreck { shrink, restarted } => {
                assert_eq!(shrink, tick % 2 == 0);
                assert!(!restarted);
            }
            CrashFrame::Flying => panic!("still a wreck"),
        }
    }
    assert!(matches!(s.update(7), CrashFrame::Wreck { shrink: false, restarted: true }));
    assert!(matches!(s.update(8), CrashFrame::Flying));
    assert_eq!(s.lives, START_LIVES - 1);
}

#[test]
fn reset_ends_a_wreck() {
    let mut s = CrashState::new();
    s.crash();
    s.reset();
    assert!(matches!(s.update(2), CrashFrame::Flying));
}

#[test]
fn rescue_spawns_only_when_quiet() {
    assert!(rescue_spawn_cell(1, 0).is_none());
    assert!(rescue_spawn_cell(0, RESCUE_LIMIT).is_none());
    for _ in 0..100 {
        let (x, z) = rescue_spawn_cell(0, RESCUE_LIMIT - 1).unwrap();
        assert!(x < BY && z < BY);
    }
}

#[test]
fn rescue_tally_scores_pickups() {
    let contacts = vec![
        RescueContact { within_reach: true, landed: true, expired: false },
        RescueContact { within_reach: true, landed: false, expired: false },
        RescueContact { within_reach: false, landed: true, expired: true },
        RescueContact { within_reach: false, landed: false, expired: false },
        RescueContact { within_reach: true, landed: false, expired: true },
    ];
    let (rescued, score, keep) = tally_rescues(&contacts);
    assert_eq!(rescued, 3);
    assert_eq!(score, 1 + 11 + 11);
    assert_eq!(keep, vec![false, false, false, true, false]);
}

#[test]
fn rescue_tally_of_nothing() {
    let (rescued, score, keep) = tally_rescues(&vec![]);
    assert_eq!((rescued, score), (0, 0));
    assert!(keep.is_empty());
}

#[test]
fn total_to_rescue_adds_every_cell() {
    let counts = vec![vec![1, 0, 2], vec![0, 0, 0], vec![3, 1, 0]];
    assert_eq!(total_to_rescue(&counts), 7);
    assert_eq!(total_to_rescue(&vec![vec![0; 3]; 3]), 0);
}

#[test]
fn count_landing_counts_rescues_in_the_air() {
    assert_eq!(count_landing(&vec![true, false, false, true]), 2);
    assert_eq!(count_landing(&vec![]), 0);
    assert!(rescue_spawn_cell(count_landing(&vec![true, true]), 3).is_some());
}
