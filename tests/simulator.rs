use rand::rngs::StdRng;
use rand::SeedableRng;
use sim_by_fired_event::event::{Event, EventScheduler, EventTimer, Priority};
use sim_by_fired_event::model::{
    BulkEvents, Model, NothingEventModel, StepEachEvent, StepEachEventWithEnd,
};
use sim_by_fired_event::{FrameCounter, NothingEventSimulator, Simulator};

#[derive(Debug, Clone, Copy, PartialEq, Eq)]
enum Letter {
    A,
    B,
}

impl Event for Letter {}

/// What the models saw, frame by frame.
#[derive(Debug, Default, Clone)]
struct Log {
    frame: u32,
    seen: Vec<(u32, Option<(Priority, Letter)>)>,
    frames_started: u32,
    frames_finished: u32,
}

/// Schedules what it is given at initialization.
#[derive(Default, Clone)]
struct Watcher {
    plan: Vec<(Priority, Letter)>,
    timeout: Option<u32>,
}

impl Model<Log> for Watcher {
    type ModelEvent = Letter;

    fn initialize(&mut self, rng: &mut StdRng, _recorder: &mut Log, scheduler: &mut EventScheduler<Letter>) {
        for (p, e) in self.plan.clone() {
            match self.timeout {
                Some(t) => scheduler.timeout(rng, EventTimer::Time(t), p, e).unwrap(),
                None => scheduler.immediate(rng, p, e).unwrap(),
            }
        }
    }

    fn start_frame(&mut self, recorder: &mut Log) {
        recorder.frame += 1;
        recorder.frames_started += 1;
    }

    fn finish_frame(&mut self, recorder: &mut Log) {
        recorder.frames_finished += 1;
    }
}

impl StepEachEvent<Log, Letter> for Watcher {
    fn step_each_event(
        &mut self,
        _rng: &mut StdRng,
        recorder: &mut Log,
        _scheduler: &mut EventScheduler<Letter>,
        priority: Priority,
        fired_event: Letter,
    ) {
        let frame = recorder.frame;
        recorder.seen.push((frame, Some((priority, fired_event))));
    }
}

impl StepEachEventWithEnd<Log, Letter> for Watcher {
    fn step_each_event_with_end(
        &mut self,
        _rng: &mut StdRng,
        recorder: &mut Log,
        _scheduler: &mut EventScheduler<Letter>,
        fired_event: Option<(Priority, Letter)>,
    ) {
        let frame = recorder.frame;
        recorder.seen.push((frame, fired_event));
    }
}

impl BulkEvents<Log, Letter> for Watcher {
    fn step_in_bulk(
        &mut self,
        _rng: &mut StdRng,
        recorder: &mut Log,
        _scheduler: &mut EventScheduler<Letter>,
        fired_events: Vec<(Priority, Letter)>,
    ) {
        let frame = recorder.frame;
        for e in fired_events {
            recorder.seen.push((frame, Some(e)));
        }
    }
}

fn watcher(plan: Vec<(Priority, Letter)>, timeout: Option<u32>) -> (StdRng, Simulator<Watcher, Letter, Log>) {
    let mut rng = StdRng::seed_from_u64(5);
    let sim = Simulator::create_from(&mut rng, Watcher { plan, timeout }, Log::default());
    (rng, sim)
}

#[test]
fn priority_breaks_ties_in_either_order() {
    for plan in [
        vec![(5, Letter::A), (1, Letter::B)],
        vec![(1, Letter::B), (5, Letter::A)],
    ] {
        let (mut rng, mut sim) = watcher(plan, None);
        sim.run_step_each_event(&mut rng);
        assert_eq!(
            sim.get_recorder().seen,
            vec![(1, Some((1, Letter::B))), (1, Some((5, Letter::A)))]
        );
    }
}

#[test]
fn end_mark_on_an_empty_frame() {
    let (mut rng, mut sim) = watcher(vec![], None);
    sim.run_step_each_event_with_end(&mut rng);
    assert_eq!(sim.get_recorder().seen, vec![(1, None)]);
}

#[test]
fn end_mark_follows_the_events() {
    let (mut rng, mut sim) = watcher(vec![(2, Letter::A), (0, Letter::B)], None);
    sim.run_n_each_event_with_end(&mut rng, 2u8);
    assert_eq!(
        sim.get_recorder().seen,
        vec![
            (1, Some((0, Letter::B))),
            (1, Some((2, Letter::A))),
            (1, None),
            (2, None)
        ]
    );
}

#[test]
fn timeout_fires_once_at_frame_three() {
    let (mut rng, mut sim) = watcher(vec![(0, Letter::A)], Some(3));
    sim.run_n_each_event(&mut rng, 5u32);
    assert_eq!(sim.get_recorder().seen, vec![(3, Some((0, Letter::A)))]);
    assert_eq!(sim.get_recorder().frames_started, 5);
    assert_eq!(sim.get_recorder().frames_finished, 5);
    assert!(!sim.get_scheduler().have_event());
}

#[test]
fn bulk_dispatch_hands_the_whole_batch() {
    let (mut rng, mut sim) = watcher(vec![(3, Letter::A), (3, Letter::B), (1, Letter::A)], None);
    sim.run_n_in_bulk_event(&mut rng, 3u64);
    assert_eq!(
        sim.get_recorder().seen,
        vec![
            (1, Some((1, Letter::A))),
            (1, Some((3, Letter::A))),
            (1, Some((3, Letter::B)))
        ]
    );
    assert_eq!(sim.get_recorder().frames_finished, 3);
}

#[test]
fn handler_sees_each_frame_batch() {
    let (mut rng, mut sim) = watcher(vec![(4, Letter::B)], Some(2));
    sim.run_n(&mut rng, 3usize, |_rng, _model, recorder: &mut Log, _scheduler, events| {
        let frame = recorder.frame;
        recorder.seen.push((frame, events.first().copied()));
    });
    assert_eq!(
        sim.get_recorder().seen,
        vec![(1, None), (2, Some((4, Letter::B))), (3, None)]
    );
    sim.run_step(&mut rng, |_rng, _model, recorder: &mut Log, _scheduler, events| {
        assert!(events.is_empty());
        recorder.frames_finished += 100;
    });
    assert_eq!(sim.get_recorder().frames_finished, 104);
}

#[test]
fn new_simulator_uses_defaults() {
    let mut rng = StdRng::seed_from_u64(1);
    let mut sim: Simulator<Watcher, Letter, Log> = Simulator::new(&mut rng);
    assert!(!sim.get_scheduler().have_event());
    assert!(sim.get_model().plan.is_empty());
    sim.run_step_in_bulk_event(&mut rng);
    assert_eq!(sim.get_recorder().frames_started, 1);
}

#[test]
fn recorder_can_be_swapped_and_changed() {
    let (mut rng, mut sim) = watcher(vec![], None);
    sim.run_step_each_event(&mut rng);
    let old = sim.swap_recorder(Log::default());
    assert_eq!(old.frames_started, 1);
    assert_eq!(sim.get_recorder().frames_started, 0);
    sim.get_recorder_as_mut().frame = 40;
    sim.run_step_each_event(&mut rng);
    assert_eq!(sim.get_recorder().frame, 41);
}

#[derive(Debug, Default, Clone)]
struct Counter {
    count: usize,
}

#[derive(Debug, Default, Clone)]
struct Tally {
    records: Vec<usize>,
}

impl NothingEventModel<Tally> for Counter {
    fn initialize(&mut self, recorder: &mut Tally) {
        recorder.records.push(self.count);
    }

    fn start_frame(&mut self, _recorder: &mut Tally) {}

    fn step(&mut self, _recorder: &mut Tally) {
        self.count += 1;
    }

    fn finish_frame(&mut self, recorder: &mut Tally) {
        recorder.records.push(self.count);
    }
}

#[test]
fn counter_runs_n_frames() {
    let mut sim = NothingEventSimulator::create_from(Counter::default(), Tally::default());
    sim.run_n(10usize);
    assert_eq!(sim.get_model().count, 10);
    assert_eq!(sim.get_recorder().records, (0..=10).collect::<Vec<usize>>());
}

#[test]
fn counter_runs_up_to_the_type_limit() {
    let mut sim: NothingEventSimulator<Counter, Tally> = NothingEventSimulator::new();
    sim.run_n(u8::MAX);
    assert_eq!(sim.get_model().count, 255);
    sim.run_n(0u16);
    assert_eq!(sim.get_model().count, 255);
}

#[test]
fn counter_recorder_swap() {
    let mut sim = NothingEventSimulator::create_from(Counter::default(), Tally::default());
    sim.run_step();
    sim.get_recorder_as_mut().records.push(99);
    let old = sim.swap_recorder(Tally::default());
    assert_eq!(old.records, vec![0, 1, 99]);
    assert!(sim.get_recorder().records.is_empty());
}

#[test]
fn frame_counter_steps() {
    let mut i = u16::start_index();
    assert_eq!(i, 0);
    i.next_index();
    i.next_index();
    assert_eq!(i, 2);
    assert!(i.can_continue(&2));
    assert!(!i.can_continue(&1));
    let mut j = u128::start_index();
    j.next_index();
    assert!(j.can_continue(&u128::MAX));
}

#[test]
fn model_can_be_changed_in_place() {
    let mut sim = NothingEventSimulator::create_from(Counter::default(), Tally::default());
    sim.get_model_as_mut().count = 40;
    sim.run_step();
    assert_eq!(sim.get_model().count, 41);
    let (mut rng, mut events) = watcher(vec![(1, Letter::A)], None);
    events.get_model_as_mut().plan.push((2, Letter::B));
    assert_eq!(events.get_model().plan.len(), 2);
    events.run_step_each_event(&mut rng);
    assert_eq!(events.get_recorder().seen, vec![(1, Some((1, Letter::A)))]);
}

#[test]
fn round_runs_a_frame_only_when_the_check_holds() {
    let mut sim = NothingEventSimulator::create_from(Counter::default(), Tally::default());
    assert!(sim.run_step_if(&|m: &Counter| m.count < 2));
    assert!(sim.run_step_if(&|m: &Counter| m.count < 2));
    assert!(!sim.run_step_if(&|m: &Counter| m.count < 2));
    assert_eq!(sim.get_model().count, 2);
    assert_eq!(sim.get_recorder().records, vec![0, 1, 2]);

    let (mut rng, mut events) = watcher(vec![(0, Letter::A)], None);
    assert!(!events.run_step_each_event_if(&mut rng, &|_m: &Watcher| false));
    assert!(events.get_recorder().seen.is_empty());
    assert!(events.run_step_each_event_if(&mut rng, &|_m: &Watcher| true));
    assert_eq!(events.get_recorder().seen, vec![(1, Some((0, Letter::A)))]);
    assert!(events.run_step_each_event_with_end_if(&mut rng, &|_m: &Watcher| true));
    assert!(events.run_step_in_bulk_event_if(&mut rng, &|_m: &Watcher| true));
    let handler = |_rng: &mut StdRng, _m: &mut Watcher, rec: &mut Log, _s: &mut EventScheduler<Letter>, _e: Vec<(Priority, Letter)>| {
        rec.frames_finished += 10;
    };
    assert!(events.run_step_if(&mut rng, &|_m: &Watcher| true, &handler));
    assert_eq!(events.get_recorder().frames_started, 4);
    assert_eq!(events.get_recorder().frames_finished, 14);
}

#[test]
fn zero_frames_change_nothing() {
    let (mut rng, mut sim) = watcher(vec![(0, Letter::A)], None);
    sim.run_n_each_event(&mut rng, 0u8);
    assert_eq!(sim.get_recorder().frames_started, 0);
    assert_eq!(sim.get_scheduler().count(), 1);
    let mut plain = NothingEventSimulator::create_from(Counter::default(), Tally::default());
    plain.run_n(0u32);
    assert_eq!(plain.get_model().count, 0);
    assert_eq!(plain.get_recorder().records, vec![0]);
}

#[test]
fn simulators_clone() {
    let (mut rng, mut sim) = watcher(vec![(0, Letter::B)], Some(2));
    let mut copy = sim.clone();
    sim.run_n_in_bulk_event(&mut rng.clone(), 2u8);
    copy.run_n_in_bulk_event(&mut rng, 2u8);
    assert_eq!(sim.get_recorder().seen, copy.get_recorder().seen);
    let plain = NothingEventSimulator::create_from(Counter::default(), Tally::default());
    assert_eq!(plain.clone().get_recorder().records, vec![0]);
}
