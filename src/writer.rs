use vstd::prelude::*;

verus! {

/// The phases of a room's transcript writer.
#[derive(Clone, Copy, PartialEq, Eq, Structural, Debug)]
pub enum WriterState {
    /// Appending each queued line as it arrives.
    Running,
    /// Shutdown was requested: appending the lines still queued.
    Draining,
    /// The queue is empty: waiting for buffered output to reach the sink.
    Flushing,
    /// The sink is closed.
    Stopped,
}

/// What the writer observes.
pub enum WriterEvent {
    /// A line was taken from the queue.
    Line(String),
    /// The room was destroyed.
    Shutdown,
    /// No line is queued at the moment.
    QueueEmpty,
    /// Buffered output has reached the sink.
    Flushed,
}

/// What the writer asks to be done next.
pub enum WriterAction {
    /// Append this line to the sink.
    Append(String),
    /// Flush buffered output.
    Flush,
    /// Close the sink.
    Close,
    /// Nothing: wait for the next event.
    Wait,
}

/// The phase after `event` in phase `state`.
pub open spec fn next_state(state: WriterState, event: WriterEvent) -> WriterState {
    match (state, event) {
        (WriterState::Running, WriterEvent::Shutdown) => WriterState::Draining,
        (WriterState::Draining, WriterEvent::QueueEmpty) => WriterState::Flushing,
        (WriterState::Flushing, WriterEvent::Flushed) => WriterState::Stopped,
        _ => state,
    }
}

/// The line appended on `event` in phase `state`, if any.
pub open spec fn appended(state: WriterState, event: WriterEvent) -> Seq<Seq<char>> {
    match event {
        WriterEvent::Line(l) => if state is Running || state is Draining {
            seq![l@]
        } else {
            Seq::empty()
        },
        _ => Seq::empty(),
    }
}

/// The line that `action` appends, if any.
pub open spec fn action_lines(action: WriterAction) -> Seq<Seq<char>> {
    match action {
        WriterAction::Append(l) => seq![l@],
        _ => Seq::empty(),
    }
}

/// The lines appended, in order, while the writer takes `events` from phase `state`.
pub open spec fn written(state: WriterState, events: Seq<WriterEvent>) -> Seq<Seq<char>>
    decreases events.len(),
{
    if events.len() == 0 {
        Seq::empty()
    } else {
        appended(state, events[0]) + written(next_state(state, events[0]), events.drop_first())
    }
}

/// The texts of the lines among `events`, in order.
pub open spec fn submitted(events: Seq<WriterEvent>) -> Seq<Seq<char>>
    decreases events.len(),
{
    if events.len() == 0 {
        Seq::empty()
    } else {
        let head = match events[0] {
            WriterEvent::Line(l) => seq![l@],
            _ => Seq::empty(),
        };
        head + submitted(events.drop_first())
    }
}

/// Whether the writer, taking `events` from phase `state`, keeps taking lines throughout:
/// it never moves on to its flush.
pub open spec fn stays_open(state: WriterState, events: Seq<WriterEvent>) -> bool
    decreases events.len(),
{
    if events.len() == 0 {
        true
    } else {
        let next = next_state(state, events[0]);
        (next is Running || next is Draining) && stays_open(next, events.drop_first())
    }
}

impl WriterState {
    /// Takes `event` in this phase: the next phase and what to do. Every line taken while
    /// running or draining is appended, a shutdown drains the queue before the flush, the
    /// sink closes only once the flush is done, and no line is taken after the drain.
    pub fn step(self, event: WriterEvent) -> (r: (WriterState, WriterAction))
        ensures
            r.0 == next_state(self, event),
            action_lines(r.1) == appended(self, event),
            match event {
                WriterEvent::Line(l) => if self is Running || self is Draining {
                    r.1 == WriterAction::Append(l)
                } else {
                    r.1 is Wait
                },
                WriterEvent::Shutdown => r.1 is Wait,
                WriterEvent::QueueEmpty => if self == WriterState::Draining {
                    r.1 is Flush
                } else {
                    r.1 is Wait
                },
                WriterEvent::Flushed => if self == WriterState::Flushing {
                    r.1 is Close
                } else {
                    r.1 is Wait
                },
            },
    {
        match event {
            WriterEvent::Line(l) => match self {
                WriterState::Running | WriterState::Draining => (self, WriterAction::Append(l)),
                _ => (self, WriterAction::Wait),
            },
            WriterEvent::Shutdown => match self {
                WriterState::Running => (WriterState::Draining, WriterAction::Wait),
                _ => (self, WriterAction::Wait),
            },
            WriterEvent::QueueEmpty => match self {
                WriterState::Draining => (WriterState::Flushing, WriterAction::Flush),
                _ => (self, WriterAction::Wait),
            },
            WriterEvent::Flushed => match self {
                WriterState::Flushing => (WriterState::Stopped, WriterAction::Close),
                _ => (self, WriterAction::Wait),
            },
        }
    }
}

/// While the writer keeps taking lines, the transcript receives exactly the submitted lines,
/// in the order they were submitted, whatever shutdown requests and empty-queue reports come
/// between them.
pub proof fn lemma_transcript_keeps_submission_order(state: WriterState, events: Seq<WriterEvent>)
    requires
        state is Running || state is Draining,
        stays_open(state, events),
    ensures
        written(state, events) == submitted(events),
    decreases events.len(),
{
    if events.len() > 0 {
        lemma_transcript_keeps_submission_order(next_state(state, events[0]), events.drop_first());
    }
}

/// The position of a phase in the writer's life.
pub open spec fn phase_rank(state: WriterState) -> nat {
    match state {
        WriterState::Running => 0,
        WriterState::Draining => 1,
        WriterState::Flushing => 2,
        WriterState::Stopped => 3,
    }
}

/// The writer's phases only move forward, one at a time; it leaves running only on a
/// shutdown request, and the sink closes at most once.
pub proof fn lemma_phases_move_forward(state: WriterState, event: WriterEvent)
    ensures
        phase_rank(next_state(state, event)) == phase_rank(state) || phase_rank(
            next_state(state, event),
        ) == phase_rank(state) + 1,
        state is Running && !(next_state(state, event) is Running) ==> event is Shutdown,
        state is Stopped ==> next_state(state, event) is Stopped,
{
}

} // verus!
