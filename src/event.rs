//! Events, their schedules, and the scheduler that holds pending events.

use crate::random::{sample_uniform, sample_weighted, weight_total};
use rand::distributions::WeightedError;
use rand::rngs::StdRng;
use std::ops::Range;
use vstd::prelude::*;

verus! {

/// Time counted in frames, relative to the current frame.
pub type LocalEventTime = u32;

/// 0 is the highest priority, `u8::MAX` the lowest.
pub type Priority = u8;

/// A value that can be stored in the scheduler and handed to a model.
pub trait Event: Clone {

}

/// An event that carries nothing, for models that need no payload.
#[derive(Default, Debug, Ord, PartialOrd, Eq, PartialEq, Copy, Clone)]
pub struct NoneEvent {}

impl Event for NoneEvent {

}

/// Why an event could not be scheduled.
#[derive(Debug, Clone, Copy, PartialEq, Eq)]
pub enum ScheduleEventError {
    /// The schedule would never fire, such as a repeat count of zero.
    CannotFireEvent,
    /// The weights of a weighted timer do not form a distribution.
    WeightedError(WeightedError),
}

impl From<WeightedError> for ScheduleEventError {
    fn from(we: WeightedError) -> (r: ScheduleEventError)
        ensures
            r == ScheduleEventError::WeightedError(we),
    {
        ScheduleEventError::WeightedError(we)
    }
}

impl vstd::std_specs::convert::FromSpecImpl<WeightedError> for ScheduleEventError {
    open spec fn obeys_from_spec() -> bool {
        true
    }

    open spec fn from_spec(we: WeightedError) -> ScheduleEventError {
        ScheduleEventError::WeightedError(we)
    }
}

/// How long to wait before an event fires.
#[derive(Debug)]
pub enum EventTimer {
    /// a fixed number of frames
    Time(LocalEventTime),
    /// a number drawn uniformly from the half-open range
    Uniform(Range<LocalEventTime>),
    /// one of the values, drawn with probability proportional to its weight
    WeightedIndex(Vec<(LocalEventTime, u8)>),
}

/// The weights of a weighted timer, widened for summing.
pub open spec fn weights_of(items: Seq<(LocalEventTime, u8)>) -> Seq<u32> {
    items.map_values(|item: (LocalEventTime, u8)| item.1 as u32)
}

/// An `EventTimer` as a mathematical value.
pub ghost enum TimerSpec {
    Time(LocalEventTime),
    Uniform(LocalEventTime, LocalEventTime),
    WeightedIndex(Seq<(LocalEventTime, u8)>),
}

impl TimerSpec {
    /// The timer can be sampled without touching an arithmetic limit: a
    /// uniform range is non-empty and the weights sum to at most `u32::MAX`.
    pub open spec fn well_sized(self) -> bool {
        match self {
            TimerSpec::Time(_) => true,
            TimerSpec::Uniform(lo, hi) => lo < hi,
            TimerSpec::WeightedIndex(items) => weight_total(weights_of(items)) <= u32::MAX,
        }
    }

    /// Sampling succeeds: a weighted timer needs a positive total weight.
    pub open spec fn can_sample(self) -> bool {
        match self {
            TimerSpec::WeightedIndex(items) => weight_total(weights_of(items)) > 0,
            _ => true,
        }
    }

    /// Sampling draws nothing from the random source.
    pub open spec fn draws_nothing(self) -> bool {
        self is Time
    }

    /// The error sampling gives when it fails: an empty weight list has no
    /// item, a non-empty one has only zero weights.
    pub open spec fn sample_error(self) -> WeightedError {
        match self {
            TimerSpec::WeightedIndex(items) => if items.len() == 0 {
                WeightedError::NoItem
            } else {
                WeightedError::AllWeightsZero
            },
            _ => WeightedError::NoItem,
        }
    }

    /// `t` is a delay that sampling this timer may give.
    pub open spec fn may_give(self, t: LocalEventTime) -> bool {
        match self {
            TimerSpec::Time(n) => t == n,
            TimerSpec::Uniform(lo, hi) => lo <= t < hi,
            TimerSpec::WeightedIndex(items) => exists|i: int|
                0 <= i < items.len() && items[i].1 > 0 && #[trigger] items[i].0 == t,
        }
    }
}

impl View for EventTimer {
    type V = TimerSpec;

    open spec fn view(&self) -> TimerSpec {
        match self {
            EventTimer::Time(n) => TimerSpec::Time(*n),
            EventTimer::Uniform(range) => TimerSpec::Uniform(range.start, range.end),
            EventTimer::WeightedIndex(items) => TimerSpec::WeightedIndex(items@),
        }
    }
}

impl Clone for EventTimer {
    fn clone(&self) -> (r: EventTimer)
        ensures
            r@ == self@,
    {
        match self {
            EventTimer::Time(n) => EventTimer::Time(*n),
            EventTimer::Uniform(range) => EventTimer::Uniform(range.start..range.end),
            EventTimer::WeightedIndex(items) => {
                let mut copy: Vec<(LocalEventTime, u8)> = Vec::new();
                let mut i: usize = 0;
                while i < items.len()
                    invariant
                        i <= items@.len(),
                        copy@ == items@.subrange(0, i as int),
                    decreases items@.len() - i,
                {
                    copy.push(items[i]);
                    i += 1;
                }
                assert(copy@ == items@);
                EventTimer::WeightedIndex(copy)
            },
        }
    }
}

impl EventTimer {
    /// Draw a delay from the timer.
    fn to_local_time(&self, rng: &mut StdRng) -> (r: Result<LocalEventTime, ScheduleEventError>)
        requires
            self@.well_sized(),
        ensures
            r is Ok <==> self@.can_sample(),
            r is Ok ==> self@.may_give(r->Ok_0),
            r is Err ==> r->Err_0 == ScheduleEventError::WeightedError(self@.sample_error()),
            self@.draws_nothing() || r is Err ==> *final(rng) == *old(rng),
    {
        match self {
            EventTimer::Time(timeout) => Ok(*timeout),
            EventTimer::Uniform(range) => Ok(sample_uniform(rng, range)),
            EventTimer::WeightedIndex(items) => {
                let mut weights: Vec<u32> = Vec::new();
                let mut i: usize = 0;
                while i < items.len()
                    invariant
                        i <= items@.len(),
                        weights@ == weights_of(items@).subrange(0, i as int),
                    decreases items@.len() - i,
                {
                    weights.push(items[i].1 as u32);
                    i += 1;
                }
                assert(weights@ == weights_of(items@));
                match sample_weighted(rng, &weights) {
                    Ok(index) => Ok(items[index].0),
                    Err(e) => Err(ScheduleEventError::from(e)),
                }
            },
        }
    }
}

/// When an event fires, and whether it fires again.
#[derive(Debug)]
pub enum Schedule {
    /// fire on the next frame
    Immediate,
    /// fire once, after the timer's delay
    Timeout(EventTimer),
    /// fire on every frame
    Everytime,
    /// fire after the timer's delay, then again after a fresh delay, forever
    EveryInterval(EventTimer),
    /// fire after the timer's delay, the given number of times in all
    Repeat(u8, EventTimer),
}

/// A `Schedule` as a mathematical value.
pub ghost enum ScheduleSpec {
    Immediate,
    Timeout(TimerSpec),
    Everytime,
    EveryInterval(TimerSpec),
    Repeat(u8, TimerSpec),
}

impl View for Schedule {
    type V = ScheduleSpec;

    open spec fn view(&self) -> ScheduleSpec {
        match self {
            Schedule::Immediate => ScheduleSpec::Immediate,
            Schedule::Timeout(t) => ScheduleSpec::Timeout(t@),
            Schedule::Everytime => ScheduleSpec::Everytime,
            Schedule::EveryInterval(t) => ScheduleSpec::EveryInterval(t@),
            Schedule::Repeat(count, t) => ScheduleSpec::Repeat(*count, t@),
        }
    }
}

impl ScheduleSpec {
    /// The schedule's timer can be sampled without touching an arithmetic limit.
    pub open spec fn well_sized(self) -> bool {
        match self {
            ScheduleSpec::Timeout(t) => t.well_sized(),
            ScheduleSpec::EveryInterval(t) => t.well_sized(),
            ScheduleSpec::Repeat(_, t) => t.well_sized(),
            _ => true,
        }
    }

    /// Scheduling succeeds: a repeat count is positive and the timer samples.
    pub open spec fn can_fire(self) -> bool {
        match self {
            ScheduleSpec::Timeout(t) => t.can_sample(),
            ScheduleSpec::EveryInterval(t) => t.can_sample(),
            ScheduleSpec::Repeat(count, t) => count > 0 && t.can_sample(),
            _ => true,
        }
    }

    /// `t` is a delay that scheduling may give the first firing.
    pub open spec fn may_delay(self, t: LocalEventTime) -> bool {
        match self {
            ScheduleSpec::Immediate => t == 1,
            ScheduleSpec::Timeout(timer) => timer.may_give(t),
            ScheduleSpec::Everytime => t == 1,
            ScheduleSpec::EveryInterval(timer) => timer.may_give(t),
            ScheduleSpec::Repeat(_, timer) => timer.may_give(t),
        }
    }

    /// Drawing the first delay takes nothing from the random source: the
    /// delay is fixed, or a repeat of zero is refused before any draw.
    pub open spec fn draws_nothing(self) -> bool {
        match self {
            ScheduleSpec::Timeout(t) => t.draws_nothing(),
            ScheduleSpec::EveryInterval(t) => t.draws_nothing(),
            ScheduleSpec::Repeat(count, t) => count == 0 || t.draws_nothing(),
            _ => true,
        }
    }

    /// The error scheduling gives when the schedule cannot fire.
    pub open spec fn failure(self) -> ScheduleEventError {
        match self {
            ScheduleSpec::Timeout(t) => ScheduleEventError::WeightedError(t.sample_error()),
            ScheduleSpec::EveryInterval(t) => ScheduleEventError::WeightedError(t.sample_error()),
            ScheduleSpec::Repeat(count, t) => if count == 0 {
                ScheduleEventError::CannotFireEvent
            } else {
                ScheduleEventError::WeightedError(t.sample_error())
            },
            _ => ScheduleEventError::CannotFireEvent,
        }
    }

    /// The schedule an event takes up again after it fired, if any.
    pub open spec fn next(self) -> Option<ScheduleSpec> {
        match self {
            ScheduleSpec::Everytime => Some(ScheduleSpec::Everytime),
            ScheduleSpec::EveryInterval(t) => Some(ScheduleSpec::EveryInterval(t)),
            ScheduleSpec::Repeat(count, t) => if count > 1 {
                Some(ScheduleSpec::Repeat((count - 1) as u8, t))
            } else {
                None
            },
            _ => None,
        }
    }
}

impl Clone for Schedule {
    fn clone(&self) -> (r: Schedule)
        ensures
            r@ == self@,
    {
        match self {
            Schedule::Immediate => Schedule::Immediate,
            Schedule::Timeout(t) => Schedule::Timeout(t.clone()),
            Schedule::Everytime => Schedule::Everytime,
            Schedule::EveryInterval(t) => Schedule::EveryInterval(t.clone()),
            Schedule::Repeat(count, t) => Schedule::Repeat(*count, t.clone()),
        }
    }
}

impl Schedule {
    /// Draw the delay before the first firing.
    fn to_local_timer(&self, rng: &mut StdRng) -> (r: Result<LocalEventTime, ScheduleEventError>)
        requires
            self@.well_sized(),
        ensures
            r is Ok <==> self@.can_fire(),
            r is Ok ==> self@.may_delay(r->Ok_0),
            r is Err ==> r->Err_0 == self@.failure(),
            self@.draws_nothing() || r is Err ==> *final(rng) == *old(rng),
    {
        match self {
            Schedule::Immediate => Ok(1),
            Schedule::Timeout(timeout) => timeout.to_local_time(rng),
            Schedule::Everytime => Ok(1),
            Schedule::EveryInterval(interval) => interval.to_local_time(rng),
            Schedule::Repeat(count, interval) => {
                if *count == 0 {
                    return Err(ScheduleEventError::CannotFireEvent);
                }
                interval.to_local_time(rng)
            },
        }
    }

    /// The schedule to take up after firing: `None` when the event does not recur.
    pub fn to_next(&self) -> (r: Option<Schedule>)
        ensures
            r matches Some(s) ==> self@.next() == Some(s@),
            r is None <==> self@.next() is None,
    {
        match self {
            Schedule::Everytime => Some(Schedule::Everytime),
            Schedule::EveryInterval(interval) => Some(Schedule::EveryInterval(interval.clone())),
            Schedule::Repeat(count, interval) => {
                if *count > 1 {
                    Some(Schedule::Repeat(*count - 1, interval.clone()))
                } else {
                    None
                }
            },
            _ => None,
        }
    }
}

/// A pending entry as a mathematical value: frames left, schedule, priority, payload.
pub type EntrySpec<E> = (LocalEventTime, ScheduleSpec, Priority, E);

/// The mathematical value of a stored entry.
pub open spec fn entry_view<E>(e: (LocalEventTime, Schedule, Priority, E)) -> EntrySpec<E> {
    (e.0, e.1@, e.2, e.3)
}

/// Key `(t1, p1)` orders strictly before key `(t2, p2)`: fewer frames left,
/// or as many and a higher priority (a lower value).
pub open spec fn key_lt(t1: LocalEventTime, p1: Priority, t2: LocalEventTime, p2: Priority) -> bool {
    t1 < t2 || (t1 == t2 && p1 < p2)
}

/// The entries are ordered by frames left, then by priority.
pub open spec fn sorted_entries<E>(s: Seq<EntrySpec<E>>) -> bool {
    forall|i: int, j: int|
        0 <= i < j < s.len() ==> !key_lt(#[trigger] s[j].0, s[j].2, #[trigger] s[i].0, s[i].2)
}

/// `i` is where an entry with key `(t, p)` goes: after every entry whose key
/// is not greater (so after those with an equal key), before the first greater one.
pub open spec fn insertion_point<E>(
    s: Seq<EntrySpec<E>>,
    t: LocalEventTime,
    p: Priority,
    i: int,
) -> bool {
    &&& 0 <= i <= s.len()
    &&& forall|j: int| 0 <= j < i ==> !key_lt(t, p, #[trigger] s[j].0, s[j].2)
    &&& i < s.len() ==> key_lt(t, p, s[i].0, s[i].2)
}

/// `r` is `s` with `e` inserted at its insertion point.
pub open spec fn placed<E>(s: Seq<EntrySpec<E>>, e: EntrySpec<E>, r: Seq<EntrySpec<E>>) -> bool {
    exists|i: int| insertion_point(s, e.0, e.2, i) && r == s.insert(i, e)
}

/// What scheduling `event` on `schedule` with `priority` does to the entries
/// `before`, giving `after` and the result `r`.
pub open spec fn schedule_outcome<E>(
    before: Seq<EntrySpec<E>>,
    schedule: ScheduleSpec,
    priority: Priority,
    event: E,
    r: Result<(), ScheduleEventError>,
    after: Seq<EntrySpec<E>>,
) -> bool {
    &&& r is Ok <==> schedule.can_fire()
    &&& r is Ok ==> exists|t: LocalEventTime|
        schedule.may_delay(t) && placed(before, (t, schedule, priority, event), after)
    &&& r is Err ==> after == before
    &&& r is Err ==> r->Err_0 == schedule.failure()
}

/// The entries with at most one frame left come first, `n` of them: these
/// fire on the next tick.
pub open spec fn due_prefix<E>(s: Seq<EntrySpec<E>>, n: int) -> bool {
    &&& 0 <= n <= s.len()
    &&& forall|j: int| 0 <= j < n ==> #[trigger] s[j].0 <= 1
    &&& forall|j: int| n <= j < s.len() ==> #[trigger] s[j].0 > 1
}

/// The entries that do not fire, with one frame fewer left.
pub open spec fn advanced<E>(s: Seq<EntrySpec<E>>) -> Seq<EntrySpec<E>> {
    s.map_values(|e: EntrySpec<E>| ((e.0 - 1) as LocalEventTime, e.1, e.2, e.3))
}

/// `after` is `before` once the fired entry `e` has been taken up again as
/// its schedule says: unchanged if it does not recur, else with one new entry
/// of the next schedule, the same priority and a clone of the payload.
pub open spec fn recurred<E: Clone>(
    before: Seq<EntrySpec<E>>,
    e: EntrySpec<E>,
    after: Seq<EntrySpec<E>>,
) -> bool {
    match e.1.next() {
        None => after == before,
        Some(s) => exists|t: LocalEventTime, copy: E|
            s.may_delay(t) && cloned(e.3, copy) && placed(before, (t, s, e.2, copy), after),
    }
}

/// `after` is `rest` once each fired entry, in order, has been taken up again.
pub open spec fn all_recurred<E: Clone>(
    rest: Seq<EntrySpec<E>>,
    fired: Seq<EntrySpec<E>>,
    after: Seq<EntrySpec<E>>,
) -> bool
    decreases fired.len(),
{
    if fired.len() == 0 {
        after == rest
    } else {
        exists|mid: Seq<EntrySpec<E>>|
            all_recurred(rest, fired.drop_last(), mid) && recurred(mid, fired.last(), after)
    }
}

/// The items of `s` whose flag in `keep` is set, in order.
pub open spec fn kept<T>(s: Seq<T>, keep: Seq<bool>) -> Seq<T>
    decreases s.len(),
{
    if s.len() == 0 {
        Seq::empty()
    } else {
        let front = kept(s.drop_last(), keep.drop_last());
        if keep.last() {
            front.push(s.last())
        } else {
            front
        }
    }
}

/// `answers` holds what `predicate` returned on each of `entries`.
pub open spec fn answered<E, P: Fn(&(LocalEventTime, Schedule, Priority, E)) -> bool>(
    predicate: P,
    entries: Seq<(LocalEventTime, Schedule, Priority, E)>,
    answers: Seq<bool>,
) -> bool {
    &&& answers.len() == entries.len()
    &&& forall|i: int| 0 <= i < entries.len() ==> call_ensures(predicate, (&entries[i],), #[trigger] answers[i])
}

/// Taking the schedule up again after a firing draws nothing from the random
/// source: it does not recur, or its next delay is fixed.
pub open spec fn recurs_without_draw(s: ScheduleSpec) -> bool {
    match s.next() {
        Some(next) => next.draws_nothing(),
        None => true,
    }
}

/// The priority and payload of an entry.
pub open spec fn fired_pair<E>(e: EntrySpec<E>) -> (Priority, E) {
    (e.2, e.3)
}

/// A schedule that the scheduler may hold: it samples, and fires.
pub open spec fn storable(s: ScheduleSpec) -> bool {
    s.well_sized() && s.can_fire()
}

/// Pending events, kept ordered by frames left and then by priority; among
/// equal keys, in the order they were scheduled.
#[derive(Debug)]
pub struct EventScheduler<E: Event> {
    event_list: Vec<(LocalEventTime, Schedule, Priority, E)>,
}

impl<E: Event> View for EventScheduler<E> {
    type V = Seq<EntrySpec<E>>;

    closed spec fn view(&self) -> Seq<EntrySpec<E>> {
        self.event_list@.map_values(|e: (LocalEventTime, Schedule, Priority, E)| entry_view(e))
    }
}

impl<E: Event> EventScheduler<E> {
    /// The entries are sorted, and each holds a schedule that can be taken up again.
    #[verifier::type_invariant]
    closed spec fn well_formed(self) -> bool {
        &&& sorted_entries(self@)
        &&& forall|i: int| 0 <= i < self@.len() ==> storable(#[trigger] self@[i].1)
    }

    /// An empty scheduler.
    pub fn new() -> (r: Self)
        ensures
            r@ == Seq::<EntrySpec<E>>::empty(),
    {
        let r = EventScheduler { event_list: Vec::new() };
        assert(r@ =~= Seq::<EntrySpec<E>>::empty());
        r
    }

    /// Whether any event is pending.
    pub fn have_event(&self) -> (r: bool)
        ensures
            r == (self@.len() > 0),
    {
        !self.event_list.is_empty()
    }

    /// The number of pending events.
    pub fn count(&self) -> (r: usize)
        ensures
            r == self@.len(),
    {
        self.event_list.len()
    }

    /// Move the entries out, leaving the scheduler empty.
    fn take_entries(&mut self) -> (r: Vec<(LocalEventTime, Schedule, Priority, E)>)
        ensures
            final(self)@ == Seq::<EntrySpec<E>>::empty(),
            r@.map_values(|e: (LocalEventTime, Schedule, Priority, E)| entry_view(e)) == old(self)@,
            sorted_entries(old(self)@),
            forall|i: int| 0 <= i < old(self)@.len() ==> storable(#[trigger] old(self)@[i].1),
    {
        proof {
            use_type_invariant(&*self);
        }
        let mut taken = EventScheduler::new();
        std::mem::swap(self, &mut taken);
        let EventScheduler { event_list } = taken;
        event_list
    }

    /// A scheduler holding the given entries.
    fn from_entries(list: Vec<(LocalEventTime, Schedule, Priority, E)>) -> (r: Self)
        requires
            sorted_entries(list@.map_values(|e: (LocalEventTime, Schedule, Priority, E)| entry_view(e))),
            forall|i: int| 0 <= i < list@.len() ==> storable(#[trigger] list@[i].1@),
        ensures
            r@ == list@.map_values(|e: (LocalEventTime, Schedule, Priority, E)| entry_view(e)),
    {
        EventScheduler { event_list: list }
    }

    /// Drop every pending event.
    pub fn clear(&mut self)
        ensures
            final(self)@ == Seq::<EntrySpec<E>>::empty(),
    {
        *self = EventScheduler::new();
    }

    /// Store an event, to fire as `schedule` says. On success the entry is
    /// placed after every entry whose key is not greater than its own.
    pub fn schedule(
        &mut self,
        rng: &mut StdRng,
        schedule: Schedule,
        priority: Priority,
        event: E,
    ) -> (r: Result<(), ScheduleEventError>)
        requires
            schedule@.well_sized(),
        ensures
            schedule_outcome(old(self)@, schedule@, priority, event, r, final(self)@),
            schedule@.draws_nothing() || r is Err ==> *final(rng) == *old(rng),
    {
        let timer = match schedule.to_local_timer(rng) {
            Ok(t) => t,
            Err(e) => return Err(e),
        };
        let ghost before = self@;
        let mut list = self.take_entries();
        let mut index: usize = 0;
        while index < list.len()
            invariant
                list@.map_values(|e: (LocalEventTime, Schedule, Priority, E)| entry_view(e)) == before,
                index <= before.len(),
                forall|j: int| 0 <= j < index ==> !key_lt(timer, priority, #[trigger] before[j].0, before[j].2),
            ensures
                insertion_point(before, timer, priority, index as int),
            decreases before.len() - index,
        {
            let count = list[index].0;
            let sch_priority = list[index].2;
            if (timer == count && priority < sch_priority) || timer < count {
                break;
            }
            index += 1;
        }
        let ghost entry = (timer, schedule@, priority, event);
        list.insert(index, (timer, schedule, priority, event));
        proof {
            assert(list@.map_values(|e: (LocalEventTime, Schedule, Priority, E)| entry_view(e))
                =~= before.insert(index as int, entry));
            lemma_insert_sorted(before, entry, index as int);
            assert forall|i: int| 0 <= i < list@.len() implies storable(#[trigger] list@[i].1@) by {
                if i < index {
                    assert(storable(before[i].1));
                } else if i > index {
                    assert(storable(before[i - 1].1));
                }
            }
        }
        *self = EventScheduler::from_entries(list);
        Ok(())
    }
}

impl<E: Event> EventScheduler<E> {
    /// Advance one frame: every entry loses a frame; those that reach zero
    /// (at most one frame left before) leave the front of the queue and are
    /// returned in queue order, and each is taken up again as its schedule says.
    pub fn next_time_and_fire(&mut self, rng: &mut StdRng) -> (r: Vec<(Priority, E)>)
        ensures
            exists|n: int|
                {
                    &&& due_prefix(old(self)@, n)
                    &&& r@ == old(self)@.take(n).map_values(|e: EntrySpec<E>| fired_pair(e))
                    &&& all_recurred(advanced(old(self)@.skip(n)), old(self)@.take(n), final(self)@)
                    &&& (forall|j: int| 0 <= j < n ==> recurs_without_draw(#[trigger] old(self)@[j].1))
                        ==> *final(rng) == *old(rng)
                },
    {
        let ghost before = self@;
        let mut list = self.take_entries();
        let ghost orig = list@;
        let n = list.len();
        let mut removed: usize = 0;
        let mut i: usize = 0;
        while i < n
            invariant
                list@.len() == n,
                orig.len() == n,
                removed <= i <= n,
                before == orig.map_values(|e: (LocalEventTime, Schedule, Priority, E)| entry_view(e)),
                sorted_entries(before),
                forall|j: int| 0 <= j < removed ==> #[trigger] orig[j].0 <= 1,
                forall|j: int| removed <= j < i ==> #[trigger] orig[j].0 > 1,
                forall|j: int|
                    0 <= j < i ==> #[trigger] list@[j] == (
                        (if orig[j].0 > 0 { orig[j].0 - 1 } else { 0 }) as LocalEventTime,
                        orig[j].1,
                        orig[j].2,
                        orig[j].3,
                    ),
                forall|j: int| i <= j < n ==> #[trigger] list@[j] == orig[j],
            decreases n - i,
        {
            if list[i].0 > 0 {
                list[i].0 = list[i].0 - 1;
            }
            if list[i].0 == 0 {
                proof {
                    assert forall|j: int| 0 <= j < i implies orig[j].0 <= 1 by {
                        assert(before[j].0 == orig[j].0 && before[i as int].0 == orig[i as int].0);
                        assert(!key_lt(before[i as int].0, before[i as int].2, before[j].0, before[j].2));
                    }
                    if removed < i {
                        assert(orig[removed as int].0 <= 1);
                    }
                }
                removed += 1;
            }
            i += 1;
        }
        let ghost decremented = list@;
        let rest = list.split_off(removed);
        let ghost fired = before.take(removed as int);
        let ghost rest_view = advanced(before.skip(removed as int));
        proof {
            assert(rest@.map_values(|e: (LocalEventTime, Schedule, Priority, E)| entry_view(e)) =~= rest_view) by {
                assert forall|j: int| 0 <= j < rest@.len() implies entry_view(#[trigger] rest@[j]) == rest_view[j] by {
                    assert(rest@[j] == decremented[j + removed]);
                    assert(before[j + removed] == entry_view(orig[j + removed]));
                }
            }
            assert forall|j: int| 0 <= j < before.len() implies #[trigger] before[j].0 == orig[j].0 by {
                assert(before[j] == entry_view(orig[j]));
            }
            assert forall|j: int| 0 <= j < fired.len() implies {
                &&& (#[trigger] list@[j]).1@ == fired[j].1
                &&& list@[j].2 == fired[j].2
                &&& list@[j].3 == fired[j].3
            } by {
                assert(list@[j] == decremented[j]);
                assert(before[j] == entry_view(orig[j]));
            }
            assert forall|a: int, b: int| 0 <= a < b < rest_view.len() implies !key_lt(
                #[trigger] rest_view[b].0,
                rest_view[b].2,
                #[trigger] rest_view[a].0,
                rest_view[a].2,
            ) by {
                assert(!key_lt(before[b + removed].0, before[b + removed].2, before[a + removed].0, before[a + removed].2));
            }
            assert forall|j: int| 0 <= j < rest@.len() implies storable(#[trigger] rest@[j].1@) by {
                assert(storable(before[j + removed].1));
            }
        }
        *self = EventScheduler::from_entries(rest);
        let mut k: usize = 0;
        while k < list.len()
            invariant
                k <= list@.len(),
                list@.len() == fired.len(),
                forall|j: int| 0 <= j < fired.len() ==> {
                    &&& (#[trigger] list@[j]).1@ == fired[j].1
                    &&& list@[j].2 == fired[j].2
                    &&& list@[j].3 == fired[j].3
                },
                forall|j: int| 0 <= j < fired.len() ==> storable(#[trigger] fired[j].1),
                all_recurred(rest_view, fired.take(k as int), self@),
                (forall|j: int| 0 <= j < fired.len() ==> recurs_without_draw(#[trigger] fired[j].1))
                    ==> *rng == *old(rng),
            decreases list@.len() - k,
        {
            let ghost mid = self@;
            let ghost e = fired[k as int];
            assert(storable(fired[k as int].1));
            match list[k].1.to_next() {
                Some(next) => {
                    let copy = list[k].3.clone();
                    let outcome = self.schedule(rng, next, list[k].2, copy);
                    proof {
                        assert(recurs_without_draw(fired[k as int].1) ==> next@.draws_nothing());
                        assert(outcome is Ok);
                        assert(cloned(e.3, copy));
                        assert(recurred(mid, e, self@));
                    }
                },
                None => {
                    assert(recurred(mid, e, self@));
                },
            }
            proof {
                assert(fired.take(k + 1).drop_last() =~= fired.take(k as int));
                assert(fired.take(k + 1).last() == e);
            }
            k += 1;
        }
        proof {
            assert(fired.take(k as int) =~= fired);
        }
        let pairs = Self::into_pairs(list);
        proof {
            assert(pairs@ =~= fired.map_values(|e: EntrySpec<E>| fired_pair(e)));
            assert(due_prefix(before, removed as int));
            assert forall|j: int| 0 <= j < removed implies fired[j] == #[trigger] before[j] by {}
        }
        pairs
    }

    /// Keep only the entries on which `predicate` returns `true`, in order.
    pub fn retain<P>(&mut self, predicate: P) where
        P: Fn(&(LocalEventTime, Schedule, Priority, E)) -> bool,

        requires
            forall|e: (LocalEventTime, Schedule, Priority, E)| call_requires(predicate, (&e,)),
        ensures
            exists|entries: Seq<(LocalEventTime, Schedule, Priority, E)>, answers: Seq<bool>|
                {
                    &&& entries.map_values(|e: (LocalEventTime, Schedule, Priority, E)| entry_view(e))
                        == old(self)@
                    &&& answered(predicate, entries, answers)
                    &&& final(self)@ == kept(old(self)@, answers)
                },
    {
        let answers = self.filter_entries(predicate, true);
        assert(answers@.map_values(|b: bool| b == true) =~= answers@);
    }

    /// Drop the entries on which `predicate` returns `true`, keeping the others in order.
    pub fn remove_when<P>(&mut self, predicate: P) where
        P: Fn(&(LocalEventTime, Schedule, Priority, E)) -> bool,

        requires
            forall|e: (LocalEventTime, Schedule, Priority, E)| call_requires(predicate, (&e,)),
        ensures
            exists|entries: Seq<(LocalEventTime, Schedule, Priority, E)>, answers: Seq<bool>|
                {
                    &&& entries.map_values(|e: (LocalEventTime, Schedule, Priority, E)| entry_view(e))
                        == old(self)@
                    &&& answered(predicate, entries, answers)
                    &&& final(self)@ == kept(old(self)@, answers.map_values(|b: bool| !b))
                },
    {
        let answers = self.filter_entries(predicate, false);
        assert(answers@.map_values(|b: bool| b == false) =~= answers@.map_values(|b: bool| !b));
    }

    /// Keep the entries on which `predicate` returns `keep_when`; the ghost
    /// result is what it returned on each entry.
    fn filter_entries<P>(&mut self, predicate: P, keep_when: bool) -> (answers: Ghost<Seq<bool>>) where
        P: Fn(&(LocalEventTime, Schedule, Priority, E)) -> bool,

        requires
            forall|e: (LocalEventTime, Schedule, Priority, E)| call_requires(predicate, (&e,)),
        ensures
            exists|entries: Seq<(LocalEventTime, Schedule, Priority, E)>|
                {
                    &&& entries.map_values(|e: (LocalEventTime, Schedule, Priority, E)| entry_view(e))
                        == old(self)@
                    &&& answered(predicate, entries, answers@)
                    &&& final(self)@ == kept(old(self)@, answers@.map_values(|b: bool| b == keep_when))
                },
    {
        let ghost before = self@;
        let list = self.take_entries();
        let ghost orig = list@;
        let n = list.len();
        let mut pending = reversed(list);
        let mut out: Vec<(LocalEventTime, Schedule, Priority, E)> = Vec::new();
        let ghost mut answers: Seq<bool> = Seq::empty();
        let ghost mut origin: Seq<int> = Seq::empty();
        while pending.len() > 0
            invariant
                n == orig.len(),
                pending@.len() <= n,
                before == orig.map_values(|e: (LocalEventTime, Schedule, Priority, E)| entry_view(e)),
                sorted_entries(before),
                forall|j: int| 0 <= j < before.len() ==> storable(#[trigger] before[j].1),
                forall|j: int| 0 <= j < pending@.len() ==> #[trigger] pending@[j] == orig[n - 1 - j],
                answered(predicate, orig.take(n - pending@.len()), answers),
                forall|e: (LocalEventTime, Schedule, Priority, E)| call_requires(predicate, (&e,)),
                out@.map_values(|e: (LocalEventTime, Schedule, Priority, E)| entry_view(e)) == kept(
                    before.take(n - pending@.len()),
                    answers.map_values(|b: bool| b == keep_when),
                ),
                origin.len() == out@.len(),
                forall|a: int|
                    0 <= a < out@.len() ==> 0 <= #[trigger] origin[a] < n - pending@.len() && out@[a]
                        == orig[origin[a]],
                forall|a: int, b: int| 0 <= a < b < out@.len() ==> #[trigger] origin[a] < #[trigger] origin[b],
            decreases pending@.len(),
        {
            let ghost m = n - pending@.len();
            let entry = pending.pop().unwrap();
            let answer = predicate(&entry);
            let ghost prev_answers = answers;
            proof {
                answers = answers.push(answer);
            }
            if answer == keep_when {
                out.push(entry);
                proof {
                    origin = origin.push(m);
                }
            }
            proof {
                let flags = answers.map_values(|b: bool| b == keep_when);
                let prev_flags = prev_answers.map_values(|b: bool| b == keep_when);
                assert(flags.drop_last() =~= prev_flags);
                assert(flags.last() == (answer == keep_when));
                assert(before.take(m + 1).drop_last() =~= before.take(m));
                assert(before.take(m + 1).last() == entry_view(entry));
                assert(orig.take(m + 1).drop_last() =~= orig.take(m));
                assert(out@.map_values(|e: (LocalEventTime, Schedule, Priority, E)| entry_view(e)) =~= kept(
                    before.take(m + 1),
                    flags,
                ));
            }
        }
        proof {
            assert(orig.take(n as int) =~= orig);
            assert(before.take(n as int) =~= before);
            let outv = out@.map_values(|e: (LocalEventTime, Schedule, Priority, E)| entry_view(e));
            assert forall|a: int, b: int| 0 <= a < b < outv.len() implies !key_lt(
                #[trigger] outv[b].0,
                outv[b].2,
                #[trigger] outv[a].0,
                outv[a].2,
            ) by {
                assert(before[origin[b]] == entry_view(orig[origin[b]]));
                assert(before[origin[a]] == entry_view(orig[origin[a]]));
                assert(origin[a] < origin[b]);
            }
            assert forall|a: int| 0 <= a < out@.len() implies storable(#[trigger] out@[a].1@) by {
                assert(before[origin[a]] == entry_view(orig[origin[a]]));
                assert(storable(before[origin[a]].1));
            }
        }
        *self = EventScheduler::from_entries(out);
        Ghost(answers)
    }

    /// The priority and payload of each entry, in order.
    fn into_pairs(list: Vec<(LocalEventTime, Schedule, Priority, E)>) -> (r: Vec<(Priority, E)>)
        ensures
            r@ == list@.map_values(|e: (LocalEventTime, Schedule, Priority, E)| (e.2, e.3)),
    {
        let ghost orig = list@;
        let n = list.len();
        let mut pending = reversed(list);
        let mut out: Vec<(Priority, E)> = Vec::new();
        while pending.len() > 0
            invariant
                out@.len() + pending@.len() == n,
                n == orig.len(),
                forall|j: int| 0 <= j < pending@.len() ==> #[trigger] pending@[j] == orig[n - 1 - j],
                forall|j: int| 0 <= j < out@.len() ==> #[trigger] out@[j] == (orig[j].2, orig[j].3),
            decreases pending@.len(),
        {
            match pending.pop() {
                Some((_, _, priority, event)) => out.push((priority, event)),
                None => {},
            }
        }
        assert(out@ =~= orig.map_values(|e: (LocalEventTime, Schedule, Priority, E)| (e.2, e.3)));
        out
    }
}

impl<E: Event> EventScheduler<E> {
    /// Schedule the event only when `predicate` holds of the scheduler as it
    /// stands; when it does not, nothing changes and the result is `Ok`.
    pub fn schedule_when<P>(
        &mut self,
        rng: &mut StdRng,
        schedule: Schedule,
        priority: Priority,
        event: E,
        predicate: P,
    ) -> (r: Result<(), ScheduleEventError>) where P: FnOnce(&Self) -> bool
        requires
            schedule@.well_sized(),
            call_requires(predicate, (&*old(self),)),
        ensures
            exists|go: bool|
                {
                    &&& call_ensures(predicate, (&*old(self),), go)
                    &&& go ==> schedule_outcome(old(self)@, schedule@, priority, event, r, final(self)@)
                    &&& go ==> (schedule@.draws_nothing() || r is Err ==> *final(rng) == *old(rng))
                    &&& !go ==> r is Ok && final(self)@ == old(self)@ && *final(rng) == *old(rng)
                },
    {
        if !predicate(&*self) {
            return Ok(());
        }
        self.schedule(rng, schedule, priority, event)
    }

    /// Schedule an event for the next frame.
    pub fn immediate(&mut self, rng: &mut StdRng, priority: Priority, event: E) -> (r: Result<
        (),
        ScheduleEventError,
    >)
        ensures
            schedule_outcome(old(self)@, ScheduleSpec::Immediate, priority, event, r, final(self)@),
            *final(rng) == *old(rng),
    {
        self.schedule(rng, Schedule::Immediate, priority, event)
    }

    /// Schedule an event to fire once, after the timer's delay.
    pub fn timeout(
        &mut self,
        rng: &mut StdRng,
        timeout: EventTimer,
        priority: Priority,
        event: E,
    ) -> (r: Result<(), ScheduleEventError>)
        requires
            timeout@.well_sized(),
        ensures
            schedule_outcome(old(self)@, ScheduleSpec::Timeout(timeout@), priority, event, r, final(self)@),
            ScheduleSpec::Timeout(timeout@).draws_nothing() || r is Err ==> *final(rng) == *old(rng),
    {
        self.schedule(rng, Schedule::Timeout(timeout), priority, event)
    }

    /// Schedule an event to fire on every frame.
    pub fn everytime(&mut self, rng: &mut StdRng, priority: Priority, event: E) -> (r: Result<
        (),
        ScheduleEventError,
    >)
        ensures
            schedule_outcome(old(self)@, ScheduleSpec::Everytime, priority, event, r, final(self)@),
            *final(rng) == *old(rng),
    {
        self.schedule(rng, Schedule::Everytime, priority, event)
    }

    /// Schedule an event to fire after each delay drawn from the timer, forever.
    pub fn every_interval(
        &mut self,
        rng: &mut StdRng,
        interval: EventTimer,
        priority: Priority,
        event: E,
    ) -> (r: Result<(), ScheduleEventError>)
        requires
            interval@.well_sized(),
        ensures
            schedule_outcome(old(self)@, ScheduleSpec::EveryInterval(interval@), priority, event, r, final(self)@),
            ScheduleSpec::EveryInterval(interval@).draws_nothing() || r is Err ==> *final(rng) == *old(rng),
    {
        self.schedule(rng, Schedule::EveryInterval(interval), priority, event)
    }

    /// Schedule an event to fire `count` times, each after a delay drawn from the timer.
    pub fn repeat(
        &mut self,
        rng: &mut StdRng,
        count: u8,
        interval: EventTimer,
        priority: Priority,
        event: E,
    ) -> (r: Result<(), ScheduleEventError>)
        requires
            interval@.well_sized(),
        ensures
            schedule_outcome(old(self)@, ScheduleSpec::Repeat(count, interval@), priority, event, r, final(self)@),
            ScheduleSpec::Repeat(count, interval@).draws_nothing() || r is Err ==> *final(rng) == *old(rng),
    {
        self.schedule(rng, Schedule::Repeat(count, interval), priority, event)
    }
}

/// The items of `v` in reverse order, so that popping yields them front first.
pub(crate) fn reversed<T>(v: Vec<T>) -> (r: Vec<T>)
    ensures
        r@.len() == v@.len(),
        forall|j: int| 0 <= j < v@.len() ==> #[trigger] r@[j] == v@[v@.len() - 1 - j],
{
    let ghost orig = v@;
    let n = v.len();
    let mut v = v;
    let mut r: Vec<T> = Vec::new();
    while v.len() > 0
        invariant
            v@ == orig.take(v@.len() as int),
            v@.len() + r@.len() == n,
            n == orig.len(),
            forall|j: int| 0 <= j < r@.len() ==> #[trigger] r@[j] == orig[n - 1 - j],
        decreases v@.len(),
    {
        match v.pop() {
            Some(item) => r.push(item),
            None => {},
        }
        proof {
            assert(v@ =~= orig.take(v@.len() as int));
        }
    }
    r
}

impl<E: Event> Clone for EventScheduler<E> {
    /// A scheduler with the same entries, each payload cloned.
    fn clone(&self) -> (r: Self)
        ensures
            r@.len() == self@.len(),
            forall|i: int|
                0 <= i < self@.len() ==> {
                    &&& (#[trigger] r@[i]).0 == self@[i].0
                    &&& r@[i].1 == self@[i].1
                    &&& r@[i].2 == self@[i].2
                    &&& cloned(self@[i].3, r@[i].3)
                },
    {
        proof {
            use_type_invariant(self);
        }
        let mut copy: Vec<(LocalEventTime, Schedule, Priority, E)> = Vec::new();
        let mut i: usize = 0;
        while i < self.event_list.len()
            invariant
                i <= self@.len(),
                self@.len() == self.event_list@.len(),
                sorted_entries(self@),
                forall|j: int| 0 <= j < self@.len() ==> storable(#[trigger] self@[j].1),
                copy@.len() == i,
                forall|j: int|
                    0 <= j < i ==> {
                        &&& (#[trigger] copy@[j]).0 == self@[j].0
                        &&& copy@[j].1@ == self@[j].1
                        &&& copy@[j].2 == self@[j].2
                        &&& cloned(self@[j].3, copy@[j].3)
                    },
            decreases self@.len() - i,
        {
            let entry = &self.event_list[i];
            let payload = entry.3.clone();
            proof {
                assert(self@[i as int] == entry_view(self.event_list@[i as int]));
            }
            copy.push((entry.0, entry.1.clone(), entry.2, payload));
            i += 1;
        }
        let ghost view = copy@.map_values(|e: (LocalEventTime, Schedule, Priority, E)| entry_view(e));
        proof {
            assert forall|a: int, b: int| 0 <= a < b < view.len() implies !key_lt(
                #[trigger] view[b].0,
                view[b].2,
                #[trigger] view[a].0,
                view[a].2,
            ) by {
                assert(!key_lt(self@[b].0, self@[b].2, self@[a].0, self@[a].2));
            }
            assert forall|j: int| 0 <= j < copy@.len() implies storable(#[trigger] copy@[j].1@) by {
                assert(storable(self@[j].1));
            }
        }
        EventScheduler::from_entries(copy)
    }
}

/// Inserting at the insertion point keeps a sorted sequence sorted.
proof fn lemma_insert_sorted<E>(s: Seq<EntrySpec<E>>, e: EntrySpec<E>, i: int)
    requires
        sorted_entries(s),
        insertion_point(s, e.0, e.2, i),
    ensures
        sorted_entries(s.insert(i, e)),
{
    let r = s.insert(i, e);
    assert forall|a: int, b: int| 0 <= a < b < r.len() implies !key_lt(
        #[trigger] r[b].0,
        r[b].2,
        #[trigger] r[a].0,
        r[a].2,
    ) by {
        if a < i && b > i {
            assert(!key_lt(s[b - 1].0, s[b - 1].2, s[a].0, s[a].2));
        } else if a < i && b == i {
            assert(!key_lt(e.0, e.2, s[a].0, s[a].2));
        } else if a == i && b > i {
            assert(key_lt(e.0, e.2, s[i].0, s[i].2));
            if b - 1 > i {
                assert(!key_lt(s[b - 1].0, s[b - 1].2, s[i].0, s[i].2));
            }
        } else if a > i {
            assert(!key_lt(s[b - 1].0, s[b - 1].2, s[a - 1].0, s[a - 1].2));
        }
    }
}

/// Scheduling keeps the entries ordered, and a new entry goes after every
/// entry with the same key: among equal keys, insertion order is kept.
pub proof fn lemma_schedule_keeps_order<E>(
    before: Seq<EntrySpec<E>>,
    schedule: ScheduleSpec,
    priority: Priority,
    event: E,
    r: Result<(), ScheduleEventError>,
    after: Seq<EntrySpec<E>>,
)
    requires
        sorted_entries(before),
        schedule_outcome(before, schedule, priority, event, r, after),
    ensures
        sorted_entries(after),
        r is Ok ==> exists|i: int, t: LocalEventTime|
            {
                &&& after == before.insert(i, (t, schedule, priority, event))
                &&& forall|j: int|
                    0 <= j < before.len() && #[trigger] before[j].0 == t && before[j].2 == priority
                        ==> j < i
            },
{
    if r is Ok {
        let t = choose|t: LocalEventTime|
            schedule.may_delay(t) && placed(before, (t, schedule, priority, event), after);
        let i = choose|i: int|
            insertion_point(before, t, priority, i) && after == before.insert(i, (t, schedule, priority, event));
        lemma_insert_sorted(before, (t, schedule, priority, event), i);
        assert forall|j: int|
            0 <= j < before.len() && #[trigger] before[j].0 == t && before[j].2 == priority implies j < i by {
            if j >= i {
                assert(key_lt(t, priority, before[i].0, before[i].2));
                assert(!key_lt(before[j].0, before[j].2, before[i].0, before[i].2));
            }
        }
    }
}

/// Firing a frame keeps the entries ordered.
pub proof fn lemma_fire_keeps_order<E: Clone>(
    before: Seq<EntrySpec<E>>,
    n: int,
    after: Seq<EntrySpec<E>>,
)
    requires
        sorted_entries(before),
        due_prefix(before, n),
        all_recurred(advanced(before.skip(n)), before.take(n), after),
    ensures
        sorted_entries(after),
{
    let rest = advanced(before.skip(n));
    assert forall|a: int, b: int| 0 <= a < b < rest.len() implies !key_lt(
        #[trigger] rest[b].0,
        rest[b].2,
        #[trigger] rest[a].0,
        rest[a].2,
    ) by {
        assert(!key_lt(before[b + n].0, before[b + n].2, before[a + n].0, before[a + n].2));
    }
    lemma_recurred_keeps_order(rest, before.take(n), after);
}

/// Taking fired entries up again keeps a sorted sequence sorted.
proof fn lemma_recurred_keeps_order<E: Clone>(
    rest: Seq<EntrySpec<E>>,
    fired: Seq<EntrySpec<E>>,
    after: Seq<EntrySpec<E>>,
)
    requires
        sorted_entries(rest),
        all_recurred(rest, fired, after),
    ensures
        sorted_entries(after),
    decreases fired.len(),
{
    if fired.len() > 0 {
        let mid = choose|mid: Seq<EntrySpec<E>>|
            all_recurred(rest, fired.drop_last(), mid) && recurred(mid, fired.last(), after);
        lemma_recurred_keeps_order(rest, fired.drop_last(), mid);
        let e = fired.last();
        if let Some(s) = e.1.next() {
            let (t, copy) = choose|t: LocalEventTime, copy: E|
                s.may_delay(t) && cloned(e.3, copy) && placed(mid, (t, s, e.2, copy), after);
            let i = choose|i: int|
                insertion_point(mid, t, e.2, i) && after == mid.insert(i, (t, s, e.2, copy));
            lemma_insert_sorted(mid, (t, s, e.2, copy), i);
        }
    }
}

/// Filtering keeps the entries ordered.
pub proof fn lemma_filter_keeps_order<E>(s: Seq<EntrySpec<E>>, keep: Seq<bool>)
    requires
        sorted_entries(s),
        keep.len() == s.len(),
    ensures
        sorted_entries(kept(s, keep)),
    decreases s.len(),
{
    if s.len() > 0 {
        let front = kept(s.drop_last(), keep.drop_last());
        assert(sorted_entries(s.drop_last()));
        lemma_filter_keeps_order(s.drop_last(), keep.drop_last());
        if keep.last() {
            lemma_kept_from(s.drop_last(), keep.drop_last());
            let r = front.push(s.last());
            assert forall|a: int, b: int| 0 <= a < b < r.len() implies !key_lt(
                #[trigger] r[b].0,
                r[b].2,
                #[trigger] r[a].0,
                r[a].2,
            ) by {
                if b == r.len() - 1 {
                    assert(drawn_from(s.drop_last(), front[a]));
                    let j = choose|j: int| 0 <= j < s.len() - 1 && s.drop_last()[j] == front[a];
                    assert(!key_lt(s[s.len() - 1].0, s[s.len() - 1].2, s[j].0, s[j].2));
                } else {
                    assert(r[a] == front[a] && r[b] == front[b]);
                }
            }
        }
    }
}

/// `x` is an item of `s`.
spec fn drawn_from<T>(s: Seq<T>, x: T) -> bool {
    exists|j: int| 0 <= j < s.len() && s[j] == x
}

/// Every kept item is an item of the original sequence.
proof fn lemma_kept_from<T>(s: Seq<T>, keep: Seq<bool>)
    requires
        keep.len() == s.len(),
    ensures
        forall|a: int| 0 <= a < kept(s, keep).len() ==> drawn_from(s, #[trigger] kept(s, keep)[a]),
    decreases s.len(),
{
    if s.len() > 0 {
        lemma_kept_from(s.drop_last(), keep.drop_last());
        let front = kept(s.drop_last(), keep.drop_last());
        assert forall|a: int| 0 <= a < kept(s, keep).len() implies drawn_from(s, #[trigger] kept(s, keep)[a]) by {
            if a < front.len() {
                assert(drawn_from(s.drop_last(), front[a]));
                let j = choose|j: int| 0 <= j < s.len() - 1 && s.drop_last()[j] == front[a];
                assert(s[j] == kept(s, keep)[a]);
            } else {
                assert(s[s.len() - 1] == kept(s, keep)[a]);
            }
        }
    }
}

/// The schedule after `k` firings, starting from `s`; `None` once it stopped recurring.
pub open spec fn after_firings(s: ScheduleSpec, k: nat) -> Option<ScheduleSpec>
    decreases k,
{
    if k == 0 {
        Some(s)
    } else {
        match after_firings(s, (k - 1) as nat) {
            Some(x) => x.next(),
            None => None,
        }
    }
}

/// A repeat of `count` fires exactly `count` times: it is still pending
/// before each of the first `count` firings, and not after the last.
pub proof fn lemma_repeat_fires_count(count: u8, timer: TimerSpec)
    requires
        count >= 1,
    ensures
        forall|k: nat|
            k < count ==> #[trigger] after_firings(ScheduleSpec::Repeat(count, timer), k) == Some(
                ScheduleSpec::Repeat((count - k) as u8, timer),
            ),
        after_firings(ScheduleSpec::Repeat(count, timer), count as nat) is None,
{
    let s = ScheduleSpec::Repeat(count, timer);
    assert forall|k: nat| k < count implies #[trigger] after_firings(s, k) == Some(
        ScheduleSpec::Repeat((count - k) as u8, timer),
    ) by {
        lemma_repeat_step(count, timer, k);
    }
    lemma_repeat_step(count, timer, (count - 1) as nat);
}

proof fn lemma_repeat_step(count: u8, timer: TimerSpec, k: nat)
    requires
        k < count,
    ensures
        after_firings(ScheduleSpec::Repeat(count, timer), k) == Some(
            ScheduleSpec::Repeat((count - k) as u8, timer),
        ),
    decreases k,
{
    if k > 0 {
        lemma_repeat_step(count, timer, (k - 1) as nat);
    }
}

/// A fired entry that fires on every frame or at every interval comes back
/// as exactly one new entry, with the same schedule, the same priority and a
/// clone of its payload.
pub proof fn lemma_recurring_entry_returns<E: Clone>(
    before: Seq<EntrySpec<E>>,
    e: EntrySpec<E>,
    after: Seq<EntrySpec<E>>,
)
    requires
        e.1 is Everytime || e.1 is EveryInterval,
        recurred(before, e, after),
    ensures
        after.len() == before.len() + 1,
        exists|i: int, t: LocalEventTime, copy: E|
            cloned(e.3, copy) && after == before.insert(i, (t, e.1, e.2, copy)),
{
    let s = e.1.next()->Some_0;
    assert(s == e.1);
    let (t, copy) = choose|t: LocalEventTime, copy: E|
        s.may_delay(t) && cloned(e.3, copy) && placed(before, (t, s, e.2, copy), after);
    let i = choose|i: int|
        insertion_point(before, t, e.2, i) && after == before.insert(i, (t, s, e.2, copy));
    assert(cloned(e.3, copy) && after == before.insert(i, (t, e.1, e.2, copy)));
}

/// `idx` places the items of `s`, in order, at positions of `t`.
pub open spec fn placed_in_order<T>(s: Seq<T>, t: Seq<T>, idx: Seq<int>) -> bool {
    &&& idx.len() == s.len()
    &&& forall|k: int| 0 <= k < s.len() ==> 0 <= #[trigger] idx[k] < t.len() && t[idx[k]] == s[k]
    &&& forall|a: int, b: int| 0 <= a < b < s.len() ==> #[trigger] idx[a] < #[trigger] idx[b]
}

/// `x` is the entry one of the `fired` entries came back as: its next
/// schedule, its priority and a clone of its payload.
pub open spec fn recurrence_of<E: Clone>(fired: Seq<EntrySpec<E>>, x: EntrySpec<E>) -> bool {
    exists|j: int|
        0 <= j < fired.len() && #[trigger] fired[j].1.next() == Some(x.1) && x.2 == fired[j].2 && cloned(
            fired[j].3,
            x.3,
        )
}

/// Firing a frame keeps every entry that did not fire, one frame nearer and
/// in the same order; every other entry afterwards is a fired entry come back.
pub proof fn lemma_fire_keeps_survivors<E: Clone>(
    before: Seq<EntrySpec<E>>,
    n: int,
    after: Seq<EntrySpec<E>>,
)
    requires
        due_prefix(before, n),
        all_recurred(advanced(before.skip(n)), before.take(n), after),
    ensures
        exists|idx: Seq<int>|
            {
                &&& placed_in_order(advanced(before.skip(n)), after, idx)
                &&& forall|p: int|
                    0 <= p < after.len() && (forall|k: int| 0 <= k < idx.len() ==> idx[k] != p)
                        ==> recurrence_of(before.take(n), #[trigger] after[p])
            },
{
    let idx = lemma_recurred_keeps_rest(advanced(before.skip(n)), before.take(n), after);
}

/// The entries of `rest` stay, in order, through taking fired entries up
/// again; the positions of `after` they do not hold are recurrences.
proof fn lemma_recurred_keeps_rest<E: Clone>(
    rest: Seq<EntrySpec<E>>,
    fired: Seq<EntrySpec<E>>,
    after: Seq<EntrySpec<E>>,
) -> (idx: Seq<int>)
    requires
        all_recurred(rest, fired, after),
    ensures
        placed_in_order(rest, after, idx),
        forall|p: int|
            0 <= p < after.len() && (forall|k: int| 0 <= k < idx.len() ==> idx[k] != p) ==> recurrence_of(
                fired,
                #[trigger] after[p],
            ),
    decreases fired.len(),
{
    if fired.len() == 0 {
        let idx = Seq::new(rest.len(), |k: int| k);
        assert forall|p: int|
            0 <= p < after.len() && (forall|k: int| 0 <= k < idx.len() ==> idx[k] != p) implies recurrence_of(
            fired,
            #[trigger] after[p],
        ) by {
            assert(idx[p] == p);
        }
        idx
    } else {
        let mid = choose|mid: Seq<EntrySpec<E>>|
            all_recurred(rest, fired.drop_last(), mid) && recurred(mid, fired.last(), after);
        let inner = lemma_recurred_keeps_rest(rest, fired.drop_last(), mid);
        lemma_recurred_step(rest, fired, mid, after, inner)
    }
}

/// A recurrence of the fired entries but the last is a recurrence of them all.
proof fn lemma_recurrence_of_more<E: Clone>(fired: Seq<EntrySpec<E>>, x: EntrySpec<E>)
    requires
        fired.len() > 0,
        recurrence_of(fired.drop_last(), x),
    ensures
        recurrence_of(fired, x),
{
    let j = choose|j: int|
        0 <= j < fired.drop_last().len() && #[trigger] fired.drop_last()[j].1.next() == Some(x.1) && x.2
            == fired.drop_last()[j].2 && cloned(fired.drop_last()[j].3, x.3);
    assert(fired[j] == fired.drop_last()[j]);
}

/// One more fired entry taken up again keeps the placement of `rest`.
proof fn lemma_recurred_step<E: Clone>(
    rest: Seq<EntrySpec<E>>,
    fired: Seq<EntrySpec<E>>,
    mid: Seq<EntrySpec<E>>,
    after: Seq<EntrySpec<E>>,
    inner: Seq<int>,
) -> (idx: Seq<int>)
    requires
        fired.len() > 0,
        recurred(mid, fired.last(), after),
        placed_in_order(rest, mid, inner),
        forall|p: int|
            0 <= p < mid.len() && (forall|k: int| 0 <= k < inner.len() ==> inner[k] != p) ==> recurrence_of(
                fired.drop_last(),
                #[trigger] mid[p],
            ),
    ensures
        placed_in_order(rest, after, idx),
        forall|p: int|
            0 <= p < after.len() && (forall|k: int| 0 <= k < idx.len() ==> idx[k] != p) ==> recurrence_of(
                fired,
                #[trigger] after[p],
            ),
{
    let e = fired.last();
    match e.1.next() {
        None => {
            assert forall|p: int|
                0 <= p < after.len() && (forall|k: int| 0 <= k < inner.len() ==> inner[k] != p)
                    implies recurrence_of(fired, #[trigger] after[p]) by {
                lemma_recurrence_of_more(fired, mid[p]);
            }
            inner
        },
        Some(s) => {
            let (t, copy) = choose|t: LocalEventTime, copy: E|
                s.may_delay(t) && cloned(e.3, copy) && placed(mid, (t, s, e.2, copy), after);
            let i = choose|i: int|
                insertion_point(mid, t, e.2, i) && after == mid.insert(i, (t, s, e.2, copy));
            let idx = inner.map_values(|k: int| if k < i { k } else { k + 1 });
            assert forall|p: int|
                0 <= p < after.len() && (forall|k: int| 0 <= k < idx.len() ==> idx[k] != p)
                    implies recurrence_of(fired, #[trigger] after[p]) by {
                if p == i {
                    assert(fired[fired.len() - 1].1.next() == Some(after[p].1));
                } else {
                    let q = if p < i { p } else { p - 1 };
                    assert(after[p] == mid[q]);
                    assert forall|k: int| 0 <= k < inner.len() implies inner[k] != q by {
                        assert(idx[k] != p);
                    }
                    lemma_recurrence_of_more(fired, mid[q]);
                }
            }
            idx
        },
    }
}

} // verus!
