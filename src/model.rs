//! The capabilities a model plugs into the simulator.

use crate::event::{Event, EventScheduler, Priority};
use rand::rngs::StdRng;
use vstd::prelude::*;

verus! {

/// A model that reacts to scheduled events, with a recorder of type `Rec`.
pub trait Model<Rec> {
    /// The events this model schedules and receives.
    type ModelEvent: Event;

    /// Set the model up and schedule its first events, when the simulator is made.
    fn initialize(
        &mut self,
        rng: &mut StdRng,
        recorder: &mut Rec,
        scheduler: &mut EventScheduler<Self::ModelEvent>,
    );

    /// Action when a frame starts.
    fn start_frame(&mut self, recorder: &mut Rec);

    /// Schedule events before the first fired event of each frame is handled.
    #[allow(unused_variables)]
    fn before_first_event(
        &mut self,
        rng: &mut StdRng,
        recorder: &mut Rec,
        scheduler: &mut EventScheduler<Self::ModelEvent>,
    ) {
    }

    /// Action when a frame finishes.
    fn finish_frame(&mut self, recorder: &mut Rec);

    /// Schedule events after the last fired event of each frame is handled.
    #[allow(unused_variables)]
    fn after_last_event(
        &mut self,
        rng: &mut StdRng,
        recorder: &mut Rec,
        scheduler: &mut EventScheduler<Self::ModelEvent>,
    ) {
    }
}

/// A model that handles all the events fired in a frame at once.
pub trait BulkEvents<Rec, E: Event>: Model<Rec, ModelEvent = E> {
    /// React to the frame's fired events, in firing order.
    fn step_in_bulk(
        &mut self,
        rng: &mut StdRng,
        recorder: &mut Rec,
        scheduler: &mut EventScheduler<E>,
        fired_events: Vec<(Priority, E)>,
    );
}

/// A model that handles the events fired in a frame one by one.
pub trait StepEachEvent<Rec, E: Event>: Model<Rec, ModelEvent = E> {
    /// React to one fired event.
    fn step_each_event(
        &mut self,
        rng: &mut StdRng,
        recorder: &mut Rec,
        scheduler: &mut EventScheduler<E>,
        priority: Priority,
        fired_event: E,
    );
}

/// A model that handles the events fired in a frame one by one, and is told
/// when the frame's events are over.
pub trait StepEachEventWithEnd<Rec, E: Event>: Model<Rec, ModelEvent = E> {
    /// React to one fired event, or, with `None`, to the end of the frame's events.
    fn step_each_event_with_end(
        &mut self,
        rng: &mut StdRng,
        recorder: &mut Rec,
        scheduler: &mut EventScheduler<E>,
        fired_event: Option<(Priority, E)>,
    );
}

/// A model that steps once per frame and uses no events.
pub trait NothingEventModel<Rec> {
    /// Set the model up, when the simulator is made.
    fn initialize(&mut self, recorder: &mut Rec);

    /// Action when a frame starts.
    fn start_frame(&mut self, recorder: &mut Rec);

    /// The frame's step.
    fn step(&mut self, recorder: &mut Rec);

    /// Action when a frame finishes.
    fn finish_frame(&mut self, recorder: &mut Rec);
}

} // verus!
