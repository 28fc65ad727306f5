use phyllotaxis::engine::{roster_step, voiced_degrees};
use phyllotaxis::pool::SlotState::{Free, Held, Released};
use phyllotaxis::pool::{best_rank, first_free, steal_rank, VOICES};
use phyllotaxis::tuning::{Kind, ROSTER};

#[test]
fn free_slots_come_first_then_released_then_held() {
    assert_eq!(first_free(&[Held, Released, Free, Free]), Some(2));
    assert_eq!(first_free(&[Held, Released]), None);
    assert_eq!(best_rank(&[Held, Released, Held]), 1);
    assert_eq!(best_rank(&[Held, Held]), 2);
    assert_eq!(best_rank(&[Held, Free]), 0);
    assert_eq!(best_rank(&[]), 2);
    assert!(steal_rank(Free) < steal_rank(Released));
    assert!(steal_rank(Released) < steal_rank(Held));
}

/// STEP walks the roster both ways and wraps.
#[test]
fn roster_steps_wrap_both_ways() {
    let n = ROSTER.len() as i32;
    let mut e = 0;
    for _ in 0..ROSTER.len() {
        e = roster_step(e, 1);
    }
    assert_eq!(e, 0);
    assert_eq!(roster_step(0, -1), n - 1);
    assert_eq!(roster_step(3, -11), 0);
    assert_eq!(roster_step(7, 1), 0);
    assert_eq!(roster_step(2, 17), 3);
}

/// A chord is voiced whole; a scale is stacked in thirds from its root.
#[test]
fn chords_are_voiced_whole_and_scales_stacked() {
    assert_eq!(voiced_degrees(Kind::Chord, 3, 0), vec![0, 1, 2]);
    assert_eq!(voiced_degrees(Kind::Chord, 8, 0).len(), VOICES);
    assert_eq!(voiced_degrees(Kind::Scale, 7, 0), vec![0, 2, 4, 6]);
    assert_eq!(voiced_degrees(Kind::Scale, 7, 5), vec![5, 0, 2, 4]);
    assert_eq!(voiced_degrees(Kind::Scale, 2, 1), vec![1, 1, 1, 1]);
}
