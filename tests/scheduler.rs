use rand::rngs::StdRng;
use rand::distributions::WeightedError;
use rand::SeedableRng;
use sim_by_fired_event::event::{Event, EventScheduler, EventTimer, Schedule, ScheduleEventError};
use std::cell::RefCell;

#[derive(Debug, Clone, Copy, PartialEq, Eq)]
struct Tag(u32);

impl Event for Tag {}

/// The pending entries, front first, as (frames left, priority, payload).
fn entries(scheduler: &mut EventScheduler<Tag>) -> Vec<(u32, u8, u32)> {
    let seen = RefCell::new(Vec::new());
    scheduler.retain(|e| {
        seen.borrow_mut().push((e.0, e.2, (e.3).0));
        true
    });
    seen.into_inner()
}

fn fresh() -> (StdRng, EventScheduler<Tag>) {
    (StdRng::seed_from_u64(11), EventScheduler::new())
}

fn fired_tags(fired: &[(u8, Tag)]) -> Vec<(u8, u32)> {
    fired.iter().map(|(p, t)| (*p, t.0)).collect()
}

#[test]
fn new_scheduler_is_empty() {
    let (_, scheduler) = fresh();
    assert!(!scheduler.have_event());
    assert_eq!(scheduler.count(), 0);
}

#[test]
fn entries_sorted_by_time_then_priority() {
    let (mut rng, mut s) = fresh();
    s.timeout(&mut rng, EventTimer::Time(5), 0, Tag(1)).unwrap();
    s.timeout(&mut rng, EventTimer::Time(2), 7, Tag(2)).unwrap();
    s.timeout(&mut rng, EventTimer::Time(2), 3, Tag(3)).unwrap();
    s.immediate(&mut rng, 9, Tag(4)).unwrap();
    s.timeout(&mut rng, EventTimer::Time(9), 0, Tag(5)).unwrap();
    s.timeout(&mut rng, EventTimer::Time(2), 3, Tag(6)).unwrap();
    assert_eq!(
        entries(&mut s),
        vec![(1, 9, 4), (2, 3, 3), (2, 3, 6), (2, 7, 2), (5, 0, 1), (9, 0, 5)]
    );
    assert_eq!(s.count(), 6);
    assert!(s.have_event());
}

#[test]
fn equal_keys_keep_insertion_order() {
    let (mut rng, mut s) = fresh();
    for i in 0..5 {
        s.timeout(&mut rng, EventTimer::Time(3), 2, Tag(i)).unwrap();
    }
    let tags: Vec<u32> = entries(&mut s).iter().map(|e| e.2).collect();
    assert_eq!(tags, vec![0, 1, 2, 3, 4]);
}

#[test]
fn firing_removes_exactly_the_due_entries() {
    let (mut rng, mut s) = fresh();
    s.timeout(&mut rng, EventTimer::Time(0), 4, Tag(10)).unwrap();
    s.timeout(&mut rng, EventTimer::Time(1), 2, Tag(11)).unwrap();
    s.timeout(&mut rng, EventTimer::Time(2), 0, Tag(12)).unwrap();
    s.timeout(&mut rng, EventTimer::Time(3), 0, Tag(13)).unwrap();
    let fired = s.next_time_and_fire(&mut rng);
    assert_eq!(fired_tags(&fired), vec![(4, 10), (2, 11)]);
    assert_eq!(entries(&mut s), vec![(1, 0, 12), (2, 0, 13)]);
    let fired = s.next_time_and_fire(&mut rng);
    assert_eq!(fired_tags(&fired), vec![(0, 12)]);
    assert_eq!(entries(&mut s), vec![(1, 0, 13)]);
}

#[test]
fn firing_an_empty_scheduler_gives_nothing() {
    let (mut rng, mut s) = fresh();
    assert!(s.next_time_and_fire(&mut rng).is_empty());
    assert_eq!(s.count(), 0);
}

#[test]
fn repeat_three_fires_three_times() {
    let (mut rng, mut s) = fresh();
    s.repeat(&mut rng, 3, EventTimer::Time(1), 1, Tag(7)).unwrap();
    let mut fired_at = Vec::new();
    for tick in 1..=6 {
        let fired = s.next_time_and_fire(&mut rng);
        for _ in fired {
            fired_at.push(tick);
        }
    }
    assert_eq!(fired_at, vec![1, 2, 3]);
    assert!(!s.have_event());
}

#[test]
fn every_interval_comes_back_once_per_firing() {
    let (mut rng, mut s) = fresh();
    s.every_interval(&mut rng, EventTimer::Time(2), 6, Tag(8)).unwrap();
    let mut fired_at = Vec::new();
    for tick in 1..=7 {
        let fired = s.next_time_and_fire(&mut rng);
        assert_eq!(s.count(), 1);
        for (p, t) in fired {
            assert_eq!((p, t), (6, Tag(8)));
            fired_at.push(tick);
        }
    }
    assert_eq!(fired_at, vec![2, 4, 6]);
    assert_eq!(entries(&mut s), vec![(1, 6, 8)]);
}

#[test]
fn everytime_fires_on_every_tick() {
    let (mut rng, mut s) = fresh();
    s.everytime(&mut rng, 3, Tag(9)).unwrap();
    for _ in 0..4 {
        let fired = s.next_time_and_fire(&mut rng);
        assert_eq!(fired_tags(&fired), vec![(3, 9)]);
        assert_eq!(entries(&mut s), vec![(1, 3, 9)]);
    }
}

#[test]
fn zero_repeat_is_rejected() {
    let (mut rng, mut s) = fresh();
    s.immediate(&mut rng, 0, Tag(1)).unwrap();
    let r = s.repeat(&mut rng, 0, EventTimer::Time(1), 0, Tag(2));
    assert_eq!(r, Err(ScheduleEventError::CannotFireEvent));
    assert_eq!(s.count(), 1);
    let r = s.schedule(&mut rng, Schedule::Repeat(0, EventTimer::WeightedIndex(vec![])), 0, Tag(3));
    assert_eq!(r, Err(ScheduleEventError::CannotFireEvent));
    assert_eq!(s.count(), 1);
}

#[test]
fn empty_weights_are_rejected() {
    let (mut rng, mut s) = fresh();
    let r = s.timeout(&mut rng, EventTimer::WeightedIndex(vec![]), 0, Tag(1));
    assert_eq!(r, Err(ScheduleEventError::WeightedError(WeightedError::NoItem)));
    assert_eq!(s.count(), 0);
}

#[test]
fn all_zero_weights_are_rejected() {
    let (mut rng, mut s) = fresh();
    let r = s.every_interval(&mut rng, EventTimer::WeightedIndex(vec![(3, 0), (4, 0)]), 0, Tag(1));
    assert_eq!(r, Err(ScheduleEventError::WeightedError(WeightedError::AllWeightsZero)));
    assert_eq!(s.count(), 0);
}

#[test]
fn weighted_draws_only_positive_weights() {
    let (mut rng, mut s) = fresh();
    for i in 0..50 {
        s.timeout(&mut rng, EventTimer::WeightedIndex(vec![(4, 0), (8, 1), (9, 0)]), 0, Tag(i))
            .unwrap();
    }
    assert!(entries(&mut s).iter().all(|e| e.0 == 8));
}

#[test]
fn weighted_sampling_follows_the_weights() {
    let (mut rng, mut s) = fresh();
    let draws = 6000;
    for i in 0..draws {
        s.timeout(
            &mut rng,
            EventTimer::WeightedIndex(vec![(5, 3), (10, 2), (15, 1)]),
            0,
            Tag(i),
        )
        .unwrap();
    }
    let times: Vec<u32> = entries(&mut s).iter().map(|e| e.0).collect();
    assert!(times.iter().all(|t| *t == 5 || *t == 10 || *t == 15));
    let share = |v: u32| times.iter().filter(|t| **t == v).count() as f64 / draws as f64;
    assert!((share(5) - 0.5).abs() < 0.03);
    assert!((share(10) - 1.0 / 3.0).abs() < 0.03);
    assert!((share(15) - 1.0 / 6.0).abs() < 0.03);
}

#[test]
fn uniform_draws_stay_in_range() {
    let (mut rng, mut s) = fresh();
    for i in 0..200 {
        s.timeout(&mut rng, EventTimer::Uniform(3..6), 0, Tag(i)).unwrap();
    }
    let times: Vec<u32> = entries(&mut s).iter().map(|e| e.0).collect();
    assert!(times.iter().all(|t| (3..6).contains(t)));
    assert!(times.contains(&3) && times.contains(&4) && times.contains(&5));
}

#[test]
fn same_seed_same_draws() {
    let run = || {
        let mut rng = StdRng::seed_from_u64(99);
        let mut s: EventScheduler<Tag> = EventScheduler::new();
        for i in 0..20 {
            s.timeout(&mut rng, EventTimer::Uniform(1..100), 0, Tag(i)).unwrap();
        }
        entries(&mut s)
    };
    assert_eq!(run(), run());
}

#[test]
fn clear_drops_everything() {
    let (mut rng, mut s) = fresh();
    s.everytime(&mut rng, 0, Tag(1)).unwrap();
    s.timeout(&mut rng, EventTimer::Time(4), 0, Tag(2)).unwrap();
    s.clear();
    assert_eq!(s.count(), 0);
    assert!(s.next_time_and_fire(&mut rng).is_empty());
}

#[test]
fn retain_and_remove_when_filter_in_order() {
    let (mut rng, mut s) = fresh();
    for i in 0..6 {
        s.timeout(&mut rng, EventTimer::Time(i + 1), 0, Tag(i)).unwrap();
    }
    s.retain(|e| (e.3).0 % 2 == 0);
    assert_eq!(entries(&mut s), vec![(1, 0, 0), (3, 0, 2), (5, 0, 4)]);
    s.remove_when(|e| e.0 == 3);
    assert_eq!(entries(&mut s), vec![(1, 0, 0), (5, 0, 4)]);
}

#[test]
fn schedule_when_checks_the_predicate() {
    let (mut rng, mut s) = fresh();
    s.schedule_when(&mut rng, Schedule::Immediate, 0, Tag(1), |sch| !sch.have_event()).unwrap();
    s.schedule_when(&mut rng, Schedule::Immediate, 0, Tag(2), |sch| !sch.have_event()).unwrap();
    assert_eq!(entries(&mut s), vec![(1, 0, 1)]);
    let r = s.schedule_when(&mut rng, Schedule::Repeat(0, EventTimer::Time(1)), 0, Tag(3), |_| true);
    assert_eq!(r, Err(ScheduleEventError::CannotFireEvent));
    let r = s.schedule_when(&mut rng, Schedule::Repeat(0, EventTimer::Time(1)), 0, Tag(3), |_| false);
    assert_eq!(r, Ok(()));
    assert_eq!(s.count(), 1);
}

#[test]
fn next_schedule_of_each_variant() {
    assert!(Schedule::Immediate.to_next().is_none());
    assert!(Schedule::Timeout(EventTimer::Time(2)).to_next().is_none());
    assert!(Schedule::Repeat(1, EventTimer::Time(2)).to_next().is_none());
    assert!(Schedule::Repeat(0, EventTimer::Time(2)).to_next().is_none());
    assert!(matches!(Schedule::Everytime.to_next(), Some(Schedule::Everytime)));
    match Schedule::Repeat(3, EventTimer::Uniform(2..4)).to_next() {
        Some(Schedule::Repeat(2, EventTimer::Uniform(r))) => assert_eq!(r, 2..4),
        other => panic!("unexpected {:?}", other),
    }
    match Schedule::EveryInterval(EventTimer::WeightedIndex(vec![(1, 2), (3, 4)])).to_next() {
        Some(Schedule::EveryInterval(EventTimer::WeightedIndex(w))) => {
            assert_eq!(w, vec![(1, 2), (3, 4)])
        }
        other => panic!("unexpected {:?}", other),
    }
}

#[test]
fn timer_clone_keeps_values() {
    let t = EventTimer::WeightedIndex(vec![(5, 3), (10, 2)]);
    match t.clone() {
        EventTimer::WeightedIndex(w) => assert_eq!(w, vec![(5, 3), (10, 2)]),
        other => panic!("unexpected {:?}", other),
    }
    match Schedule::Timeout(EventTimer::Uniform(1..9)).clone() {
        Schedule::Timeout(EventTimer::Uniform(r)) => assert_eq!(r, 1..9),
        other => panic!("unexpected {:?}", other),
    }
}

#[test]
fn fixed_delays_leave_the_random_source_alone() {
    let (mut rng, mut s) = fresh();
    let before = rng.clone();
    s.immediate(&mut rng, 1, Tag(1)).unwrap();
    s.everytime(&mut rng, 1, Tag(2)).unwrap();
    s.timeout(&mut rng, EventTimer::Time(4), 1, Tag(3)).unwrap();
    s.repeat(&mut rng, 3, EventTimer::Time(2), 1, Tag(4)).unwrap();
    s.every_interval(&mut rng, EventTimer::Time(3), 1, Tag(5)).unwrap();
    let _ = s.repeat(&mut rng, 0, EventTimer::Uniform(1..9), 1, Tag(6));
    let _ = s.timeout(&mut rng, EventTimer::WeightedIndex(vec![(1, 0)]), 1, Tag(7));
    s.schedule_when(&mut rng, Schedule::Timeout(EventTimer::Uniform(1..9)), 0, Tag(8), |_| false)
        .unwrap();
    for _ in 0..6 {
        s.next_time_and_fire(&mut rng);
    }
    assert_eq!(rng, before);
    s.timeout(&mut rng, EventTimer::Uniform(1..9), 1, Tag(9)).unwrap();
    assert_ne!(rng, before);
}

#[test]
fn clone_keeps_the_entries() {
    let (mut rng, mut s) = fresh();
    s.timeout(&mut rng, EventTimer::Time(3), 2, Tag(1)).unwrap();
    s.repeat(&mut rng, 2, EventTimer::Time(1), 0, Tag(2)).unwrap();
    let mut copy = s.clone();
    assert_eq!(entries(&mut copy), entries(&mut s));
    let a = copy.next_time_and_fire(&mut rng);
    let b = s.next_time_and_fire(&mut rng);
    assert_eq!(a, b);
    assert_eq!(entries(&mut copy), entries(&mut s));
}
