//! What a running test reports, and who listens.
use vstd::prelude::*;

verus! {

/// A step of a running test. Passes, intervals, classes and checkpoints are numbered from one.
#[derive(Clone, Copy, PartialEq, Eq, Debug, Structural)]
pub enum Event {
    /// Points are being generated.
    Generating,
    /// A number of samples is being scanned, with a number of bits decimated per dimension.
    Scanning { samples: usize, bits: usize },
    /// Points of one value interval are being generated.
    Pass { pass: u64, passes: u64 },
    /// Points of one checkpoint stage are being generated.
    Checkpoint { checkpoint: usize, checkpoints: usize },
    /// A birthday-spacings repetition starts.
    Classes { classes: u64 },
    /// Points of one value interval are being generated, for one spacing class.
    Interval { class: u64, interval: u64, of: u64 },
    /// The orbit is being walked to the starting points of the threads.
    Prescan,
    /// The walk along the orbit is over.
    PrescanDone,
    /// Points are being sorted.
    Sorting,
    /// Spacings are being computed.
    Spacing,
    /// Spacings are being sorted.
    SortingSpacings,
    /// Sorted points are being merged.
    Merging,
    /// Spacings of one class are being collected.
    Filtering,
    /// Collisions are being counted.
    Counting,
    /// A single sweep is over.
    Done { points: usize },
    /// A pass is over: its points and collisions, and those of all passes so far.
    PassDone { points: usize, collisions: usize, all_points: usize, all_collisions: usize },
    /// A checkpoint is reached: the points and collisions so far.
    CheckpointDone { points: usize, collisions: usize },
    /// A value interval held no points.
    IntervalEmpty,
    /// A value interval is over.
    IntervalDone { points: usize },
    /// A spacing class is over: its spacings and collisions, and the collisions of all classes so
    /// far.
    ClassDone { class: u64, of: u64, spacings: usize, collisions: usize, all_collisions: usize },
    /// A repetition is over: its points and collisions, and the collisions of all repetitions so
    /// far.
    Repetition { points: usize, collisions: usize, total: u128 },
}

/// A witness of the events of a running test.
pub trait Progress {
    /// What has been reported so far.
    spec fn log(&self) -> Seq<Event>;

    /// Takes notice of an event.
    fn report(&mut self, event: Event)
        ensures
            final(self).log() == old(self).log().push(event),
    ;
}

/// Writes down every event.
pub struct Journal {
    events: Vec<Event>,
}

impl View for Journal {
    type V = Seq<Event>;

    closed spec fn view(&self) -> Seq<Event> {
        self.events@
    }
}

impl Journal {
    /// An empty journal.
    pub fn new() -> (j: Self)
        ensures
            j@ == Seq::<Event>::empty(),
    {
        Journal { events: Vec::new() }
    }

    /// The events, in the order in which they came.
    pub fn events(&self) -> (r: &Vec<Event>)
        ensures
            r@ == self@,
    {
        &self.events
    }
}

impl Progress for Journal {
    open spec fn log(&self) -> Seq<Event> {
        self@
    }

    fn report(&mut self, event: Event) {
        self.events.push(event);
    }
}

/// Something that events are told to, such as a terminal. Nothing is known of what it does with them.
pub trait Listener {
    /// Is told of an event.
    fn hear(&mut self, event: Event);
}

/// Passes every event on to a listener, in the order in which they come.
pub struct Relay<L> {
    listener: L,
    told: Ghost<Seq<Event>>,
}

impl<L: Listener> View for Relay<L> {
    type V = Seq<Event>;

    closed spec fn view(&self) -> Seq<Event> {
        self.told@
    }
}

impl<L: Listener> Relay<L> {
    /// The listener, as it is by now.
    pub closed spec fn target(&self) -> L {
        self.listener
    }

    /// A relay to a listener that was told nothing yet.
    pub fn new(listener: L) -> (r: Self)
        ensures
            r@ == Seq::<Event>::empty(),
            r.target() == listener,
    {
        Relay { listener, told: Ghost(Seq::empty()) }
    }

    /// The listener.
    pub fn listener(&self) -> (r: &L)
        ensures
            *r == self.target(),
    {
        &self.listener
    }
}

impl<L: Listener> Progress for Relay<L> {
    open spec fn log(&self) -> Seq<Event> {
        self@
    }

    fn report(&mut self, event: Event)
        ensures
            exists|m: &mut L|
                *m == old(self).target() && *final(m) == final(self).target() && #[trigger] call_ensures(
                    L::hear,
                    (m, event),
                    (),
                ),
    {
        self.listener.hear(event);
        self.told = Ghost(self.told@.push(event));
    }
}

/// A journal starts empty, and holds the events in the order in which they are reported.
pub proof fn lemma_journal(j: Journal, p: Seq<&mut Journal>, first: Event, second: Event, r: &Vec<Event>)
    requires
        p.len() == 2,
        call_ensures(Journal::new, (), j),
        *p[0] == j,
        call_ensures(Journal::report, (p[0], first), ()),
        *p[1] == *final(p[0]),
        call_ensures(Journal::report, (p[1], second), ()),
        call_ensures(Journal::events, (final(p[1]),), r),
    ensures
        r@ == seq![first, second],
{
}

} // verus!
