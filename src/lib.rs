//! Discrete-time simulation driven by events that fire at scheduled frames.

use crate::event::{due_prefix, fired_pair, reversed, EntrySpec, Event, EventScheduler, Priority};
use crate::model::{BulkEvents, Model, NothingEventModel, StepEachEvent, StepEachEventWithEnd};
use rand::rngs::StdRng;
use vstd::prelude::*;

pub mod event;
pub mod model;
pub mod random;

verus! {

/// A frame counter: frames are numbered from 1 up to and including the
/// counter's value.
pub trait FrameCounter: Copy {
    /// The counter as a number.
    spec fn frame_number(&self) -> nat;

    /// The largest number the type holds.
    spec fn frame_limit() -> nat;

    /// The counter before the first frame.
    fn start_index() -> (r: Self)
        ensures
            r.frame_number() == 0,
    ;

    /// Count one more frame.
    fn next_index(&mut self)
        requires
            old(self).frame_number() < Self::frame_limit(),
        ensures
            final(self).frame_number() == old(self).frame_number() + 1,
    ;

    /// Whether this counter is at most `specified`.
    fn can_continue(&self, specified: &Self) -> (r: bool)
        ensures
            r == (self.frame_number() <= specified.frame_number()),
    ;

    /// No counter exceeds the limit.
    proof fn lemma_within_limit(&self)
        ensures
            self.frame_number() <= Self::frame_limit(),
    ;
}

impl FrameCounter for u8 {
    open spec fn frame_number(&self) -> nat {
        *self as nat
    }

    open spec fn frame_limit() -> nat {
        u8::MAX as nat
    }

    fn start_index() -> (r: u8) {
        u8::MIN
    }

    fn next_index(&mut self) {
        *self += 1;
    }

    fn can_continue(&self, specified: &u8) -> (r: bool) {
        *self <= *specified
    }

    proof fn lemma_within_limit(&self) {
    }
}

impl FrameCounter for u16 {
    open spec fn frame_number(&self) -> nat {
        *self as nat
    }

    open spec fn frame_limit() -> nat {
        u16::MAX as nat
    }

    fn start_index() -> (r: u16) {
        u16::MIN
    }

    fn next_index(&mut self) {
        *self += 1;
    }

    fn can_continue(&self, specified: &u16) -> (r: bool) {
        *self <= *specified
    }

    proof fn lemma_within_limit(&self) {
    }
}

impl FrameCounter for u32 {
    open spec fn frame_number(&self) -> nat {
        *self as nat
    }

    open spec fn frame_limit() -> nat {
        u32::MAX as nat
    }

    fn start_index() -> (r: u32) {
        u32::MIN
    }

    fn next_index(&mut self) {
        *self += 1;
    }

    fn can_continue(&self, specified: &u32) -> (r: bool) {
        *self <= *specified
    }

    proof fn lemma_within_limit(&self) {
    }
}

impl FrameCounter for u64 {
    open spec fn frame_number(&self) -> nat {
        *self as nat
    }

    open spec fn frame_limit() -> nat {
        u64::MAX as nat
    }

    fn start_index() -> (r: u64) {
        u64::MIN
    }

    fn next_index(&mut self) {
        *self += 1;
    }

    fn can_continue(&self, specified: &u64) -> (r: bool) {
        *self <= *specified
    }

    proof fn lemma_within_limit(&self) {
    }
}

impl FrameCounter for u128 {
    open spec fn frame_number(&self) -> nat {
        *self as nat
    }

    open spec fn frame_limit() -> nat {
        u128::MAX as nat
    }

    fn start_index() -> (r: u128) {
        u128::MIN
    }

    fn next_index(&mut self) {
        *self += 1;
    }

    fn can_continue(&self, specified: &u128) -> (r: bool) {
        *self <= *specified
    }

    proof fn lemma_within_limit(&self) {
    }
}

impl FrameCounter for usize {
    open spec fn frame_number(&self) -> nat {
        *self as nat
    }

    open spec fn frame_limit() -> nat {
        usize::MAX as nat
    }

    fn start_index() -> (r: usize) {
        usize::MIN
    }

    fn next_index(&mut self) {
        *self += 1;
    }

    fn can_continue(&self, specified: &usize) -> (r: bool) {
        *self <= *specified
    }

    proof fn lemma_within_limit(&self) {
    }
}

/// A call a simulator without events makes into its model.
pub ghost enum PlainCall {
    Initialize,
    StartFrame,
    Step,
    FinishFrame,
}

/// The calls of one frame without events: start it, step, finish it.
pub open spec fn plain_frame() -> Seq<PlainCall> {
    seq![PlainCall::StartFrame, PlainCall::Step, PlainCall::FinishFrame]
}

/// The calls of `n` frames without events, one after another.
pub open spec fn plain_frames(n: nat) -> Seq<PlainCall>
    decreases n,
{
    if n == 0 {
        Seq::empty()
    } else {
        plain_frames((n - 1) as nat) + plain_frame()
    }
}

/// A simulator for a model that uses no events.
#[derive(Clone)]
pub struct NothingEventSimulator<M, Rec> where M: NothingEventModel<Rec> {
    model: M,
    recorder: Rec,
    calls: Ghost<Seq<PlainCall>>,
}

impl<M, Rec> NothingEventSimulator<M, Rec> where M: NothingEventModel<Rec> {
    /// The model.
    pub closed spec fn model(&self) -> M {
        self.model
    }

    /// The recorder.
    pub closed spec fn recorder(&self) -> Rec {
        self.recorder
    }

    /// Every call made into the model so far, in order.
    pub closed spec fn calls(&self) -> Seq<PlainCall> {
        self.calls@
    }

    /// A simulator over a default model and recorder, initialized: the
    /// model's `initialize` is the one call made.
    pub fn new() -> (r: Self) where M: Default, Rec: Default
        ensures
            r.calls() == seq![PlainCall::Initialize],
    {
        let mut sim = Self { model: M::default(), recorder: Rec::default(), calls: Ghost(Seq::empty()) };
        sim.initialize();
        sim
    }

    /// A simulator over the given model and recorder, initialized: the
    /// model's `initialize` is the one call made, on these values.
    pub fn create_from(model: M, recorder: Rec) -> (r: Self)
        ensures
            r.calls() == seq![PlainCall::Initialize],
    {
        let mut sim = Self { model, recorder, calls: Ghost(Seq::empty()) };
        sim.initialize();
        sim
    }

    /// Let the model set itself up.
    fn initialize(&mut self)
        ensures
            final(self).calls() == old(self).calls().push(PlainCall::Initialize),
    {
        self.calls = Ghost(self.calls@.push(PlainCall::Initialize));
        self.model.initialize(&mut self.recorder);
    }

    /// The model.
    pub fn get_model(&self) -> (r: &M)
        ensures
            *r == self.model(),
    {
        &self.model
    }

    /// The model, to change in place.
    pub fn get_model_as_mut(&mut self) -> (r: &mut M)
        ensures
            *r == old(self).model(),
            final(self).model() == *final(r),
            final(self).recorder() == old(self).recorder(),
            final(self).calls() == old(self).calls(),
    {
        &mut self.model
    }

    /// The recorder.
    pub fn get_recorder(&self) -> (r: &Rec)
        ensures
            *r == self.recorder(),
    {
        &self.recorder
    }

    /// The recorder, to change in place.
    pub fn get_recorder_as_mut(&mut self) -> (r: &mut Rec)
        ensures
            *r == old(self).recorder(),
            final(self).recorder() == *final(r),
            final(self).model() == old(self).model(),
            final(self).calls() == old(self).calls(),
    {
        &mut self.recorder
    }

    /// Put in a new recorder and hand back the old one.
    pub fn swap_recorder(&mut self, new_recorder: Rec) -> (r: Rec)
        ensures
            r == old(self).recorder(),
            final(self).recorder() == new_recorder,
            final(self).model() == old(self).model(),
            final(self).calls() == old(self).calls(),
    {
        let mut other = new_recorder;
        std::mem::swap(&mut self.recorder, &mut other);
        other
    }

    /// Run one frame: start it, step the model, finish it, once each and in
    /// that order.
    pub fn run_step(&mut self)
        ensures
            final(self).calls() == old(self).calls() + plain_frame(),
    {
        self.calls = Ghost(self.calls@.push(PlainCall::StartFrame));
        self.model.start_frame(&mut self.recorder);
        self.calls = Ghost(self.calls@.push(PlainCall::Step));
        self.model.step(&mut self.recorder);
        self.calls = Ghost(self.calls@.push(PlainCall::FinishFrame));
        self.model.finish_frame(&mut self.recorder);
        assert(self.calls@ =~= old(self).calls() + plain_frame());
    }

    /// One round of a run that goes on while `can_continue` holds of the
    /// model: run a frame exactly when it holds now. Returns whether it held.
    pub fn run_step_if<F>(&mut self, can_continue: &F) -> (ran: bool) where F: Fn(&M) -> bool
        requires
            forall|m: M| call_requires(*can_continue, (&m,)),
        ensures
            call_ensures(*can_continue, (&old(self).model(),), ran),
            ran ==> final(self).calls() == old(self).calls() + plain_frame(),
            !ran ==> *final(self) == *old(self),
    {
        if can_continue(&self.model) {
            self.run_step();
            true
        } else {
            false
        }
    }

    /// Run frames 1 up to and including `counter`; with a counter of 0 the
    /// simulator is left as it is.
    pub fn run_n<FC: FrameCounter>(&mut self, counter: FC)
        ensures
            final(self).calls() == old(self).calls() + plain_frames(counter.frame_number()),
            counter.frame_number() == 0 ==> *final(self) == *old(self),
    {
        let mut index = FC::start_index();
        loop
            invariant
                index.frame_number() <= counter.frame_number(),
                self.calls() == old(self).calls() + plain_frames(index.frame_number()),
                index.frame_number() == 0 ==> *self == *old(self),
            ensures
                self.calls() == old(self).calls() + plain_frames(counter.frame_number()),
                counter.frame_number() == 0 ==> *self == *old(self),
            decreases counter.frame_number() - index.frame_number(),
        {
            // `counter <= index`: every frame up to `counter` has run.
            if counter.can_continue(&index) {
                break;
            }
            proof {
                counter.lemma_within_limit();
            }
            index.next_index();
            self.run_step();
            assert(self.calls() =~= old(self).calls() + plain_frames(index.frame_number())) by {
                assert(plain_frames(index.frame_number()) == plain_frames(
                    (index.frame_number() - 1) as nat,
                ) + plain_frame());
            }
        }
    }
}

/// `fired` is what one tick of a scheduler holding `pending` fires: the
/// priority and payload of the entries with at most one frame left, in queue order.
pub open spec fn fired_from<E>(pending: Seq<EntrySpec<E>>, fired: Seq<(Priority, E)>) -> bool {
    exists|n: int|
        due_prefix(pending, n) && fired == pending.take(n).map_values(|e: EntrySpec<E>| fired_pair(e))
}

/// A step a simulator with events takes: a tick of its scheduler, with the
/// events it fired, or a call into the model or the frame handler.
pub ghost enum SimCall<E> {
    /// the model's `initialize`, with the pending events the scheduler held
    Initialize(Seq<EntrySpec<E>>),
    StartFrame,
    Tick(Seq<(Priority, E)>),
    BeforeFirstEvent,
    Handler(Seq<(Priority, E)>),
    InBulk(Seq<(Priority, E)>),
    EachEvent(Priority, E),
    EachEventWithEnd(Option<(Priority, E)>),
    AfterLastEvent,
    FinishFrame,
}

/// How a frame hands its fired events over.
pub ghost enum Dispatch {
    /// to a frame handler, all at once
    Handler,
    /// to the model, all at once
    InBulk,
    /// to the model, one call per event
    EachEvent,
    /// to the model, one call per event, then one with `None`
    EachEventWithEnd,
}

/// The calls that hand `batch` over as `d` says.
pub open spec fn dispatch_calls<E>(d: Dispatch, batch: Seq<(Priority, E)>) -> Seq<SimCall<E>> {
    match d {
        Dispatch::Handler => seq![SimCall::Handler(batch)],
        Dispatch::InBulk => seq![SimCall::InBulk(batch)],
        Dispatch::EachEvent => batch.map_values(|x: (Priority, E)| SimCall::EachEvent(x.0, x.1)),
        Dispatch::EachEventWithEnd => batch.map_values(
            |x: (Priority, E)| SimCall::EachEventWithEnd(Some(x)),
        ).push(SimCall::EachEventWithEnd(None)),
    }
}

/// The steps of one frame, in order: start hook, tick firing `batch`, hook
/// before the first event, the `dispatch` calls, hook after the last event,
/// finish hook.
pub open spec fn frame_calls<E>(batch: Seq<(Priority, E)>, dispatch: Seq<SimCall<E>>) -> Seq<SimCall<E>> {
    seq![SimCall::StartFrame, SimCall::Tick(batch), SimCall::BeforeFirstEvent] + dispatch + seq![
        SimCall::AfterLastEvent,
        SimCall::FinishFrame,
    ]
}

/// The steps of whole frames, one after another, the `i`-th firing
/// `batches[i]` and handing it over as `d` says.
pub open spec fn frames_log<E>(batches: Seq<Seq<(Priority, E)>>, d: Dispatch) -> Seq<SimCall<E>>
    decreases batches.len(),
{
    if batches.len() == 0 {
        Seq::empty()
    } else {
        frames_log(batches.drop_last(), d) + frame_calls(batches.last(), dispatch_calls(d, batches.last()))
    }
}

/// A simulator for a model that reacts to scheduled events.
#[derive(Clone)]
#[verifier::reject_recursive_types(E)]
pub struct Simulator<M, E, Rec> where M: Model<Rec, ModelEvent = E>, E: Event {
    model: M,
    recorder: Rec,
    scheduler: EventScheduler<E>,
    fired: Ghost<Seq<(Priority, E)>>,
    calls: Ghost<Seq<SimCall<E>>>,
}

impl<M, E, Rec> Simulator<M, E, Rec> where M: Model<Rec, ModelEvent = E>, E: Event {
    /// The model.
    pub closed spec fn model(&self) -> M {
        self.model
    }

    /// The recorder.
    pub closed spec fn recorder(&self) -> Rec {
        self.recorder
    }

    /// The pending events.
    pub closed spec fn pending(&self) -> Seq<EntrySpec<E>> {
        self.scheduler@
    }

    /// The events fired in the last frame run, in firing order.
    pub closed spec fn last_fired(&self) -> Seq<(Priority, E)> {
        self.fired@
    }

    /// Every step taken so far, in order.
    pub closed spec fn calls(&self) -> Seq<SimCall<E>> {
        self.calls@
    }

    /// A simulator over a default model and recorder, initialized: the
    /// model's `initialize`, on an empty scheduler, is the one call made.
    pub fn new(rng: &mut StdRng) -> (r: Self) where Rec: Default, M: Default
        ensures
            r.calls() == seq![SimCall::<E>::Initialize(Seq::empty())],
    {
        let mut sim = Self {
            model: M::default(),
            recorder: Rec::default(),
            scheduler: EventScheduler::new(),
            fired: Ghost(Seq::empty()),
            calls: Ghost(Seq::empty()),
        };
        sim.initialize(rng);
        sim
    }

    /// A simulator over the given model and recorder, initialized: the
    /// model's `initialize`, on these values and an empty scheduler, is the
    /// one call made.
    pub fn create_from(rng: &mut StdRng, model: M, recorder: Rec) -> (r: Self)
        ensures
            r.calls() == seq![SimCall::<E>::Initialize(Seq::empty())],
    {
        let mut sim = Self {
            model,
            recorder,
            scheduler: EventScheduler::new(),
            fired: Ghost(Seq::empty()),
            calls: Ghost(Seq::empty()),
        };
        sim.initialize(rng);
        sim
    }

    /// Let the model set itself up and schedule its first events.
    fn initialize(&mut self, rng: &mut StdRng)
        ensures
            final(self).calls() == old(self).calls().push(SimCall::Initialize(old(self).pending())),
    {
        self.calls = Ghost(self.calls@.push(SimCall::Initialize(self.scheduler@)));
        self.model.initialize(rng, &mut self.recorder, &mut self.scheduler);
    }

    /// The model.
    pub fn get_model(&self) -> (r: &M)
        ensures
            *r == self.model(),
    {
        &self.model
    }

    /// The model, to change in place.
    pub fn get_model_as_mut(&mut self) -> (r: &mut M)
        ensures
            *r == old(self).model(),
            final(self).model() == *final(r),
            final(self).recorder() == old(self).recorder(),
            final(self).pending() == old(self).pending(),
            final(self).calls() == old(self).calls(),
    {
        &mut self.model
    }

    /// The scheduler.
    pub fn get_scheduler(&self) -> (r: &EventScheduler<E>)
        ensures
            r@ == self.pending(),
    {
        &self.scheduler
    }

    /// The recorder.
    pub fn get_recorder(&self) -> (r: &Rec)
        ensures
            *r == self.recorder(),
    {
        &self.recorder
    }

    /// The recorder, to change in place.
    pub fn get_recorder_as_mut(&mut self) -> (r: &mut Rec)
        ensures
            *r == old(self).recorder(),
            final(self).recorder() == *final(r),
            final(self).model() == old(self).model(),
            final(self).pending() == old(self).pending(),
            final(self).calls() == old(self).calls(),
    {
        &mut self.recorder
    }

    /// Put in a new recorder and hand back the old one.
    pub fn swap_recorder(&mut self, new_recorder: Rec) -> (r: Rec)
        ensures
            r == old(self).recorder(),
            final(self).recorder() == new_recorder,
            final(self).model() == old(self).model(),
            final(self).pending() == old(self).pending(),
            final(self).calls() == old(self).calls(),
    {
        let mut other = new_recorder;
        std::mem::swap(&mut self.recorder, &mut other);
        other
    }

    /// Start a frame: the model's start hook, one tick of the scheduler, and
    /// the hook before the first event. Returns the fired events.
    fn open_frame(&mut self, rng: &mut StdRng) -> (r: Vec<(Priority, E)>)
        ensures
            fired_from(old(self).pending(), r@),
            final(self).last_fired() == r@,
            final(self).calls() == old(self).calls() + seq![
                SimCall::StartFrame,
                SimCall::Tick(r@),
                SimCall::BeforeFirstEvent,
            ],
    {
        self.calls = Ghost(self.calls@.push(SimCall::StartFrame));
        self.model.start_frame(&mut self.recorder);
        let fired_events = self.scheduler.next_time_and_fire(rng);
        self.fired = Ghost(fired_events@);
        self.calls = Ghost(self.calls@.push(SimCall::Tick(fired_events@)));
        self.calls = Ghost(self.calls@.push(SimCall::BeforeFirstEvent));
        self.model.before_first_event(rng, &mut self.recorder, &mut self.scheduler);
        assert(self.calls@ =~= old(self).calls() + seq![
            SimCall::StartFrame,
            SimCall::Tick(fired_events@),
            SimCall::BeforeFirstEvent,
        ]);
        fired_events
    }

    /// Finish a frame: the hook after the last event and the model's finish hook.
    fn close_frame(&mut self, rng: &mut StdRng)
        ensures
            final(self).last_fired() == old(self).last_fired(),
            final(self).calls() == old(self).calls() + seq![SimCall::AfterLastEvent, SimCall::FinishFrame],
    {
        self.calls = Ghost(self.calls@.push(SimCall::AfterLastEvent));
        self.model.after_last_event(rng, &mut self.recorder, &mut self.scheduler);
        self.calls = Ghost(self.calls@.push(SimCall::FinishFrame));
        self.model.finish_frame(&mut self.recorder);
        assert(self.calls@ =~= old(self).calls() + seq![SimCall::AfterLastEvent, SimCall::FinishFrame]);
    }

    /// Run one frame, handing the fired events to `handler`, called once
    /// even when none fired.
    pub fn run_step<H>(&mut self, rng: &mut StdRng, handler: H) where
        H: Fn(&mut StdRng, &mut M, &mut Rec, &mut EventScheduler<E>, Vec<(Priority, E)>),

        requires
            forall|a: &mut StdRng, b: &mut M, c: &mut Rec, d: &mut EventScheduler<E>, e: Vec<(Priority, E)>|
                    call_requires(handler, (a, b, c, d, e)),
        ensures
            fired_from(old(self).pending(), final(self).last_fired()),
            final(self).calls() == old(self).calls() + frame_calls(
                final(self).last_fired(),
                dispatch_calls(Dispatch::Handler, final(self).last_fired()),
            ),
    {
        self.run_step_with(rng, &handler);
    }

    /// One frame with `handler`, borrowed.
    fn run_step_with<H>(&mut self, rng: &mut StdRng, handler: &H) where
        H: Fn(&mut StdRng, &mut M, &mut Rec, &mut EventScheduler<E>, Vec<(Priority, E)>),

        requires
            forall|a: &mut StdRng, b: &mut M, c: &mut Rec, d: &mut EventScheduler<E>, e: Vec<(Priority, E)>|
                call_requires(*handler, (a, b, c, d, e)),
        ensures
            fired_from(old(self).pending(), final(self).last_fired()),
            final(self).calls() == old(self).calls() + frame_calls(
                final(self).last_fired(),
                dispatch_calls(Dispatch::Handler, final(self).last_fired()),
            ),
    {
        let fired_events = self.open_frame(rng);
        let ghost batch = fired_events@;
        self.calls = Ghost(self.calls@.push(SimCall::Handler(fired_events@)));
        handler(rng, &mut self.model, &mut self.recorder, &mut self.scheduler, fired_events);
        self.close_frame(rng);
        assert(self.calls@ =~= old(self).calls() + frame_calls(batch, dispatch_calls(Dispatch::Handler, batch)));
    }

    /// One round of a run that goes on while `can_continue` holds of the
    /// model: run a frame handing its fired events to `handler` exactly when it holds now. Returns whether it held.
    pub fn run_step_if<F, H>(&mut self, rng: &mut StdRng, can_continue: &F, handler: &H) -> (ran: bool) where
        F: Fn(&M) -> bool,
        H: Fn(&mut StdRng, &mut M, &mut Rec, &mut EventScheduler<E>, Vec<(Priority, E)>),

        requires
            forall|m: M| call_requires(*can_continue, (&m,)),
            forall|a: &mut StdRng, b: &mut M, c: &mut Rec, d: &mut EventScheduler<E>, e: Vec<(Priority, E)>|
                call_requires(*handler, (a, b, c, d, e)),
        ensures
            call_ensures(*can_continue, (&old(self).model(),), ran),
            ran ==> fired_from(old(self).pending(), final(self).last_fired()),
            ran ==> final(self).calls() == old(self).calls() + frame_calls(
                final(self).last_fired(),
                dispatch_calls(Dispatch::Handler, final(self).last_fired()),
            ),
            !ran ==> *final(self) == *old(self),
    {
        if can_continue(&self.model) {
            self.run_step_with(rng, handler);
            true
        } else {
            false
        }
    }

    /// Run frames 1 up to and including `counter`, handing each frame's fired
    /// events to `handler`; with a counter of 0 the simulator is left as it is.
    pub fn run_n<FC: FrameCounter, H>(&mut self, rng: &mut StdRng, counter: FC, handler: H) where
        H: Fn(&mut StdRng, &mut M, &mut Rec, &mut EventScheduler<E>, Vec<(Priority, E)>),

        requires
            forall|a: &mut StdRng, b: &mut M, c: &mut Rec, d: &mut EventScheduler<E>, e: Vec<(Priority, E)>|
                    call_requires(handler, (a, b, c, d, e)),
        ensures
            exists|batches: Seq<Seq<(Priority, E)>>|
                {
                    &&& batches.len() == counter.frame_number()
                    &&& final(self).calls() == old(self).calls() + frames_log(batches, Dispatch::Handler)
                    &&& batches.len() > 0 ==> fired_from(old(self).pending(), batches[0])
                    &&& batches.len() > 0 ==> final(self).last_fired() == batches.last()
                },
            counter.frame_number() == 0 ==> *final(self) == *old(self),
    {
        let mut index = FC::start_index();
        let ghost mut batches: Seq<Seq<(Priority, E)>> = Seq::empty();
        loop
            invariant
                index.frame_number() <= counter.frame_number(),
                batches.len() == index.frame_number(),
                self.calls() == old(self).calls() + frames_log(batches, Dispatch::Handler),
                batches.len() > 0 ==> fired_from(old(self).pending(), batches[0]),
                batches.len() > 0 ==> self.last_fired() == batches.last(),
                index.frame_number() == 0 ==> *self == *old(self),
                                forall|a: &mut StdRng, b: &mut M, c: &mut Rec, d: &mut EventScheduler<E>, e: Vec<(Priority, E)>|
                        call_requires(handler, (a, b, c, d, e)),

            ensures
                batches.len() == counter.frame_number(),
                self.calls() == old(self).calls() + frames_log(batches, Dispatch::Handler),
                batches.len() > 0 ==> fired_from(old(self).pending(), batches[0]),
                batches.len() > 0 ==> self.last_fired() == batches.last(),
                counter.frame_number() == 0 ==> *self == *old(self),
            decreases counter.frame_number() - index.frame_number(),
        {
            // `counter <= index`: every frame up to `counter` has run.
            if counter.can_continue(&index) {
                break;
            }
            proof {
                counter.lemma_within_limit();
            }
            index.next_index();
            self.run_step_with(rng, &handler);
            proof {
                let batch = self.last_fired();
                let more = batches.push(batch);
                assert(more.drop_last() =~= batches);
                assert(frames_log(more, Dispatch::Handler) == frames_log(batches, Dispatch::Handler) + frame_calls(
                    batch,
                    dispatch_calls(Dispatch::Handler, batch),
                ));
                assert(self.calls() =~= old(self).calls() + frames_log(more, Dispatch::Handler));
                assert(more[0] == if batches.len() > 0 { batches[0] } else { batch });
                batches = more;
            }
        }
    }
}

impl<M, E, Rec> Simulator<M, E, Rec> where M: BulkEvents<Rec, E>, E: Event {
    /// Run one frame, handing all fired events to the model at once, even
    /// when none fired.
    pub fn run_step_in_bulk_event(&mut self, rng: &mut StdRng)
        ensures
            fired_from(old(self).pending(), final(self).last_fired()),
            final(self).calls() == old(self).calls() + frame_calls(
                final(self).last_fired(),
                dispatch_calls(Dispatch::InBulk, final(self).last_fired()),
            ),
    {
        let fired_events = self.open_frame(rng);
        let ghost batch = fired_events@;
        self.calls = Ghost(self.calls@.push(SimCall::InBulk(fired_events@)));
        self.model.step_in_bulk(rng, &mut self.recorder, &mut self.scheduler, fired_events);
        self.close_frame(rng);
        assert(self.calls@ =~= old(self).calls() + frame_calls(batch, dispatch_calls(Dispatch::InBulk, batch)));
    }

    /// One round of a run that goes on while `can_continue` holds of the
    /// model: run a frame in bulk exactly when it holds now. Returns whether it held.
    pub fn run_step_in_bulk_event_if<F>(&mut self, rng: &mut StdRng, can_continue: &F) -> (ran: bool) where
        F: Fn(&M) -> bool,

        requires
            forall|m: M| call_requires(*can_continue, (&m,)),
        ensures
            call_ensures(*can_continue, (&old(self).model(),), ran),
            ran ==> fired_from(old(self).pending(), final(self).last_fired()),
            ran ==> final(self).calls() == old(self).calls() + frame_calls(
                final(self).last_fired(),
                dispatch_calls(Dispatch::InBulk, final(self).last_fired()),
            ),
            !ran ==> *final(self) == *old(self),
    {
        if can_continue(&self.model) {
            self.run_step_in_bulk_event(rng);
            true
        } else {
            false
        }
    }

    /// Run frames 1 up to and including `counter`, each in bulk; with a
    /// counter of 0 the simulator is left as it is.
    pub fn run_n_in_bulk_event<FC: FrameCounter>(&mut self, rng: &mut StdRng, counter: FC)
        ensures
            exists|batches: Seq<Seq<(Priority, E)>>|
                {
                    &&& batches.len() == counter.frame_number()
                    &&& final(self).calls() == old(self).calls() + frames_log(batches, Dispatch::InBulk)
                    &&& batches.len() > 0 ==> fired_from(old(self).pending(), batches[0])
                    &&& batches.len() > 0 ==> final(self).last_fired() == batches.last()
                },
            counter.frame_number() == 0 ==> *final(self) == *old(self),
    {
        let mut index = FC::start_index();
        let ghost mut batches: Seq<Seq<(Priority, E)>> = Seq::empty();
        loop
            invariant
                index.frame_number() <= counter.frame_number(),
                batches.len() == index.frame_number(),
                self.calls() == old(self).calls() + frames_log(batches, Dispatch::InBulk),
                batches.len() > 0 ==> fired_from(old(self).pending(), batches[0]),
                batches.len() > 0 ==> self.last_fired() == batches.last(),
                index.frame_number() == 0 ==> *self == *old(self),
                
            ensures
                batches.len() == counter.frame_number(),
                self.calls() == old(self).calls() + frames_log(batches, Dispatch::InBulk),
                batches.len() > 0 ==> fired_from(old(self).pending(), batches[0]),
                batches.len() > 0 ==> self.last_fired() == batches.last(),
                counter.frame_number() == 0 ==> *self == *old(self),
            decreases counter.frame_number() - index.frame_number(),
        {
            // `counter <= index`: every frame up to `counter` has run.
            if counter.can_continue(&index) {
                break;
            }
            proof {
                counter.lemma_within_limit();
            }
            index.next_index();
            self.run_step_in_bulk_event(rng);
            proof {
                let batch = self.last_fired();
                let more = batches.push(batch);
                assert(more.drop_last() =~= batches);
                assert(frames_log(more, Dispatch::InBulk) == frames_log(batches, Dispatch::InBulk) + frame_calls(
                    batch,
                    dispatch_calls(Dispatch::InBulk, batch),
                ));
                assert(self.calls() =~= old(self).calls() + frames_log(more, Dispatch::InBulk));
                assert(more[0] == if batches.len() > 0 { batches[0] } else { batch });
                batches = more;
            }
        }
    }
}

impl<M, E, Rec> Simulator<M, E, Rec> where M: StepEachEvent<Rec, E>, E: Event {
    /// Run one frame, handing the fired events to the model one by one, in firing order.
    pub fn run_step_each_event(&mut self, rng: &mut StdRng)
        ensures
            fired_from(old(self).pending(), final(self).last_fired()),
            final(self).calls() == old(self).calls() + frame_calls(
                final(self).last_fired(),
                dispatch_calls(Dispatch::EachEvent, final(self).last_fired()),
            ),
    {
        let fired_events = self.open_frame(rng);
        let ghost batch = fired_events@;
        let ghost start = self.calls@;
        let n = fired_events.len();
        let mut pending = reversed(fired_events);
        while pending.len() > 0
            invariant
                fired_from(old(self).pending(), batch),
                self.last_fired() == batch,
                n == batch.len(),
                pending@.len() <= n,
                forall|j: int| 0 <= j < pending@.len() ==> #[trigger] pending@[j] == batch[n - 1 - j],
                self.calls() == start + dispatch_calls(Dispatch::EachEvent, batch.take(n - pending@.len())),
            decreases pending@.len(),
        {
            let ghost k = n - pending@.len();
            let (priority, event) = pending.pop().unwrap();
            self.calls = Ghost(self.calls@.push(SimCall::EachEvent(priority, event)));
            self.model.step_each_event(rng, &mut self.recorder, &mut self.scheduler, priority, event);
            assert(dispatch_calls(Dispatch::EachEvent, batch.take(k + 1)) =~= dispatch_calls(
                Dispatch::EachEvent,
                batch.take(k),
            ).push(SimCall::EachEvent(batch[k].0, batch[k].1)));
        }
        assert(batch.take(n as int) =~= batch);
        self.close_frame(rng);
        assert(self.calls@ =~= old(self).calls() + frame_calls(batch, dispatch_calls(Dispatch::EachEvent, batch)));
    }

    /// One round of a run that goes on while `can_continue` holds of the
    /// model: run a frame event by event exactly when it holds now. Returns whether it held.
    pub fn run_step_each_event_if<F>(&mut self, rng: &mut StdRng, can_continue: &F) -> (ran: bool) where
        F: Fn(&M) -> bool,

        requires
            forall|m: M| call_requires(*can_continue, (&m,)),
        ensures
            call_ensures(*can_continue, (&old(self).model(),), ran),
            ran ==> fired_from(old(self).pending(), final(self).last_fired()),
            ran ==> final(self).calls() == old(self).calls() + frame_calls(
                final(self).last_fired(),
                dispatch_calls(Dispatch::EachEvent, final(self).last_fired()),
            ),
            !ran ==> *final(self) == *old(self),
    {
        if can_continue(&self.model) {
            self.run_step_each_event(rng);
            true
        } else {
            false
        }
    }

    /// Run frames 1 up to and including `counter`, each event by itself;
    /// with a counter of 0 the simulator is left as it is.
    pub fn run_n_each_event<FC: FrameCounter>(&mut self, rng: &mut StdRng, counter: FC)
        ensures
            exists|batches: Seq<Seq<(Priority, E)>>|
                {
                    &&& batches.len() == counter.frame_number()
                    &&& final(self).calls() == old(self).calls() + frames_log(batches, Dispatch::EachEvent)
                    &&& batches.len() > 0 ==> fired_from(old(self).pending(), batches[0])
                    &&& batches.len() > 0 ==> final(self).last_fired() == batches.last()
                },
            counter.frame_number() == 0 ==> *final(self) == *old(self),
    {
        let mut index = FC::start_index();
        let ghost mut batches: Seq<Seq<(Priority, E)>> = Seq::empty();
        loop
            invariant
                index.frame_number() <= counter.frame_number(),
                batches.len() == index.frame_number(),
                self.calls() == old(self).calls() + frames_log(batches, Dispatch::EachEvent),
                batches.len() > 0 ==> fired_from(old(self).pending(), batches[0]),
                batches.len() > 0 ==> self.last_fired() == batches.last(),
                index.frame_number() == 0 ==> *self == *old(self),
                
            ensures
                batches.len() == counter.frame_number(),
                self.calls() == old(self).calls() + frames_log(batches, Dispatch::EachEvent),
                batches.len() > 0 ==> fired_from(old(self).pending(), batches[0]),
                batches.len() > 0 ==> self.last_fired() == batches.last(),
                counter.frame_number() == 0 ==> *self == *old(self),
            decreases counter.frame_number() - index.frame_number(),
        {
            // `counter <= index`: every frame up to `counter` has run.
            if counter.can_continue(&index) {
                break;
            }
            proof {
                counter.lemma_within_limit();
            }
            index.next_index();
            self.run_step_each_event(rng);
            proof {
                let batch = self.last_fired();
                let more = batches.push(batch);
                assert(more.drop_last() =~= batches);
                assert(frames_log(more, Dispatch::EachEvent) == frames_log(batches, Dispatch::EachEvent) + frame_calls(
                    batch,
                    dispatch_calls(Dispatch::EachEvent, batch),
                ));
                assert(self.calls() =~= old(self).calls() + frames_log(more, Dispatch::EachEvent));
                assert(more[0] == if batches.len() > 0 { batches[0] } else { batch });
                batches = more;
            }
        }
    }
}

impl<M, E, Rec> Simulator<M, E, Rec> where M: StepEachEventWithEnd<Rec, E>, E: Event {
    /// Run one frame, handing the fired events to the model one by one, in
    /// firing order, then `None` to mark the end, even when none fired.
    pub fn run_step_each_event_with_end(&mut self, rng: &mut StdRng)
        ensures
            fired_from(old(self).pending(), final(self).last_fired()),
            final(self).calls() == old(self).calls() + frame_calls(
                final(self).last_fired(),
                dispatch_calls(Dispatch::EachEventWithEnd, final(self).last_fired()),
            ),
    {
        let fired_events = self.open_frame(rng);
        let ghost batch = fired_events@;
        let ghost start = self.calls@;
        let n = fired_events.len();
        let mut pending = reversed(fired_events);
        while pending.len() > 0
            invariant
                fired_from(old(self).pending(), batch),
                self.last_fired() == batch,
                n == batch.len(),
                pending@.len() <= n,
                forall|j: int| 0 <= j < pending@.len() ==> #[trigger] pending@[j] == batch[n - 1 - j],
                self.calls() == start + batch.take(n - pending@.len()).map_values(
                    |x: (Priority, E)| SimCall::EachEventWithEnd(Some(x)),
                ),
            decreases pending@.len(),
        {
            let ghost k = n - pending@.len();
            let fired = pending.pop();
            self.calls = Ghost(self.calls@.push(SimCall::EachEventWithEnd(fired)));
            self.model.step_each_event_with_end(rng, &mut self.recorder, &mut self.scheduler, fired);
            assert(batch.take(k + 1).map_values(|x: (Priority, E)| SimCall::EachEventWithEnd(Some(x)))
                =~= batch.take(k).map_values(|x: (Priority, E)| SimCall::EachEventWithEnd(Some(x))).push(
                SimCall::EachEventWithEnd(Some(batch[k])),
            ));
        }
        assert(batch.take(n as int) =~= batch);
        self.calls = Ghost(self.calls@.push(SimCall::EachEventWithEnd(None)));
        self.model.step_each_event_with_end(rng, &mut self.recorder, &mut self.scheduler, None);
        self.close_frame(rng);
        assert(self.calls@ =~= old(self).calls() + frame_calls(
            batch,
            dispatch_calls(Dispatch::EachEventWithEnd, batch),
        ));
    }

    /// One round of a run that goes on while `can_continue` holds of the
    /// model: run a frame event by event, then the end mark exactly when it holds now. Returns whether it held.
    pub fn run_step_each_event_with_end_if<F>(&mut self, rng: &mut StdRng, can_continue: &F) -> (ran: bool) where
        F: Fn(&M) -> bool,

        requires
            forall|m: M| call_requires(*can_continue, (&m,)),
        ensures
            call_ensures(*can_continue, (&old(self).model(),), ran),
            ran ==> fired_from(old(self).pending(), final(self).last_fired()),
            ran ==> final(self).calls() == old(self).calls() + frame_calls(
                final(self).last_fired(),
                dispatch_calls(Dispatch::EachEventWithEnd, final(self).last_fired()),
            ),
            !ran ==> *final(self) == *old(self),
    {
        if can_continue(&self.model) {
            self.run_step_each_event_with_end(rng);
            true
        } else {
            false
        }
    }

    /// Run frames 1 up to and including `counter`, each event by itself and
    /// then the end mark; with a counter of 0 the simulator is left as it is.
    pub fn run_n_each_event_with_end<FC: FrameCounter>(&mut self, rng: &mut StdRng, counter: FC)
        ensures
            exists|batches: Seq<Seq<(Priority, E)>>|
                {
                    &&& batches.len() == counter.frame_number()
                    &&& final(self).calls() == old(self).calls() + frames_log(batches, Dispatch::EachEventWithEnd)
                    &&& batches.len() > 0 ==> fired_from(old(self).pending(), batches[0])
                    &&& batches.len() > 0 ==> final(self).last_fired() == batches.last()
                },
            counter.frame_number() == 0 ==> *final(self) == *old(self),
    {
        let mut index = FC::start_index();
        let ghost mut batches: Seq<Seq<(Priority, E)>> = Seq::empty();
        loop
            invariant
                index.frame_number() <= counter.frame_number(),
                batches.len() == index.frame_number(),
                self.calls() == old(self).calls() + frames_log(batches, Dispatch::EachEventWithEnd),
                batches.len() > 0 ==> fired_from(old(self).pending(), batches[0]),
                batches.len() > 0 ==> self.last_fired() == batches.last(),
                index.frame_number() == 0 ==> *self == *old(self),
                
            ensures
                batches.len() == counter.frame_number(),
                self.calls() == old(self).calls() + frames_log(batches, Dispatch::EachEventWithEnd),
                batches.len() > 0 ==> fired_from(old(self).pending(), batches[0]),
                batches.len() > 0 ==> self.last_fired() == batches.last(),
                counter.frame_number() == 0 ==> *self == *old(self),
            decreases counter.frame_number() - index.frame_number(),
        {
            // `counter <= index`: every frame up to `counter` has run.
            if counter.can_continue(&index) {
                break;
            }
            proof {
                counter.lemma_within_limit();
            }
            index.next_index();
            self.run_step_each_event_with_end(rng);
            proof {
                let batch = self.last_fired();
                let more = batches.push(batch);
                assert(more.drop_last() =~= batches);
                assert(frames_log(more, Dispatch::EachEventWithEnd) == frames_log(batches, Dispatch::EachEventWithEnd) + frame_calls(
                    batch,
                    dispatch_calls(Dispatch::EachEventWithEnd, batch),
                ));
                assert(self.calls() =~= old(self).calls() + frames_log(more, Dispatch::EachEventWithEnd));
                assert(more[0] == if batches.len() > 0 { batches[0] } else { batch });
                batches = more;
            }
        }
    }
}

} // verus!
