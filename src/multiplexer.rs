use vstd::prelude::*;
use crate::decoder::{decode_log, decodes_to, DecodedEvent, RawLog};
use crate::schema::EventSchema;

verus! {

/// One of the two consumption loops.
#[derive(Clone, Copy, Debug, PartialEq, Eq)]
pub enum LoopId {
    A,
    B,
}

/// Why a loop stopped.
#[derive(Clone, Debug, PartialEq, Eq)]
pub enum TerminationCause {
    /// The subscription's sequence of logs ended.
    EndOfSequence,
    /// The transport reported an error, with its message.
    Transport(String),
}

/// What a subscription delivered next.
#[derive(Clone, Debug, PartialEq, Eq)]
pub enum StreamEvent {
    Log(RawLog),
    End,
    TransportError(String),
}

/// The state of one loop.
#[derive(Clone, Debug, PartialEq, Eq)]
pub enum LoopState {
    Running,
    Terminated(TerminationCause),
}

/// The state of the pair: active while both loops run, failed from the first
/// termination on, naming the loop and its cause.
#[derive(Clone, Debug, PartialEq, Eq)]
pub enum MuxStatus {
    Active,
    Failed(LoopId, TerminationCause),
}

/// What the driver is to do after an event.
#[derive(Clone, Debug, PartialEq, Eq)]
pub enum Action {
    /// Hand the decoded event (a record or a decode failure) to the sink and
    /// keep reading this loop.
    Emit(DecodedEvent),
    /// This loop is over, for the given cause.
    Stop(TerminationCause),
    /// The loop had already stopped; the event is dropped.
    Ignore,
}

/// The decision state of two independent subscriptions, each with its own
/// schema.
#[derive(Clone, Debug)]
pub struct Multiplexer {
    pub schema_a: EventSchema,
    pub schema_b: EventSchema,
    pub loop_a: LoopState,
    pub loop_b: LoopState,
    pub status: MuxStatus,
}

/// The cause with which an event ends a loop, if it does.
pub open spec fn cause_of(e: StreamEvent) -> Option<TerminationCause> {
    match e {
        StreamEvent::Log(_) => None,
        StreamEvent::End => Some(TerminationCause::EndOfSequence),
        StreamEvent::TransportError(m) => Some(TerminationCause::Transport(m)),
    }
}

impl Multiplexer {
    pub open spec fn schema_of(&self, id: LoopId) -> EventSchema {
        match id {
            LoopId::A => self.schema_a,
            LoopId::B => self.schema_b,
        }
    }

    pub open spec fn state_of(&self, id: LoopId) -> LoopState {
        match id {
            LoopId::A => self.loop_a,
            LoopId::B => self.loop_b,
        }
    }

    /// Both schemas are well formed; the pair is active exactly while both
    /// loops run, and a failure names a loop that stopped with that cause.
    pub open spec fn wf(&self) -> bool {
        &&& self.schema_a.wf()
        &&& self.schema_b.wf()
        &&& (self.status == MuxStatus::Active) == (self.loop_a == LoopState::Running
            && self.loop_b == LoopState::Running)
        &&& match self.status {
            MuxStatus::Active => true,
            MuxStatus::Failed(id, c) => self.state_of(id) == LoopState::Terminated(c),
        }
    }

    /// `m2` and `act` are what follows from `m` when loop `id` delivers `e`:
    /// a stopped loop ignores it; a log is decoded with the loop's schema and
    /// changes nothing; an end or a transport error stops the loop, and fails
    /// the pair if it was still active.
    pub open spec fn steps_to(
        m: Multiplexer,
        id: LoopId,
        e: StreamEvent,
        m2: Multiplexer,
        act: Action,
    ) -> bool {
        if m.state_of(id) != LoopState::Running {
            m2 == m && act == Action::Ignore
        } else {
            match cause_of(e) {
                None => m2 == m && act is Emit && decodes_to(
                    e->Log_0,
                    m.schema_of(id),
                    act->Emit_0,
                ),
                Some(c) => {
                    &&& act == Action::Stop(c)
                    &&& m2.schema_a == m.schema_a
                    &&& m2.schema_b == m.schema_b
                    &&& m2.state_of(id) == LoopState::Terminated(c)
                    &&& m2.state_of(other(id)) == m.state_of(other(id))
                    &&& m2.status == if m.status == MuxStatus::Active {
                        MuxStatus::Failed(id, c)
                    } else {
                        m.status
                    }
                },
            }
        }
    }

    /// Both loops running, the pair active.
    pub fn new(schema_a: EventSchema, schema_b: EventSchema) -> (r: Multiplexer)
        requires
            schema_a.wf(),
            schema_b.wf(),
        ensures
            r.wf(),
            r.schema_a == schema_a,
            r.schema_b == schema_b,
            r.status == MuxStatus::Active,
    {
        Multiplexer {
            schema_a,
            schema_b,
            loop_a: LoopState::Running,
            loop_b: LoopState::Running,
            status: MuxStatus::Active,
        }
    }

    fn is_running(&self, id: LoopId) -> (r: bool)
        ensures
            r == (self.state_of(id) == LoopState::Running),
    {
        match id {
            LoopId::A => match self.loop_a {
                LoopState::Running => true,
                LoopState::Terminated(_) => false,
            },
            LoopId::B => match self.loop_b {
                LoopState::Running => true,
                LoopState::Terminated(_) => false,
            },
        }
    }

    /// Decides what follows when loop `id` delivers `e`.
    pub fn step(&mut self, id: LoopId, e: StreamEvent) -> (r: Action)
        requires
            old(self).wf(),
        ensures
            final(self).wf(),
            Self::steps_to(*old(self), id, e, *final(self), r),
    {
        if !self.is_running(id) {
            return Action::Ignore;
        }
        let cause = match e {
            StreamEvent::Log(log) => {
                let decoded = match id {
                    LoopId::A => decode_log(log, &self.schema_a),
                    LoopId::B => decode_log(log, &self.schema_b),
                };
                return Action::Emit(decoded);
            },
            StreamEvent::End => TerminationCause::EndOfSequence,
            StreamEvent::TransportError(m) => TerminationCause::Transport(m),
        };
        let was_active = match self.status {
            MuxStatus::Active => true,
            MuxStatus::Failed(_, _) => false,
        };
        match id {
            LoopId::A => {
                self.loop_a = LoopState::Terminated(copy_cause(&cause));
            },
            LoopId::B => {
                self.loop_b = LoopState::Terminated(copy_cause(&cause));
            },
        }
        if was_active {
            self.status = MuxStatus::Failed(id, copy_cause(&cause));
        }
        Action::Stop(cause)
    }
}

fn copy_cause(c: &TerminationCause) -> (r: TerminationCause)
    ensures
        r == *c,
{
    match c {
        TerminationCause::EndOfSequence => TerminationCause::EndOfSequence,
        TerminationCause::Transport(m) => TerminationCause::Transport(m.clone()),
    }
}

/// The other loop of the pair.
pub open spec fn other(id: LoopId) -> LoopId {
    match id {
        LoopId::A => LoopId::B,
        LoopId::B => LoopId::A,
    }
}

/// Loop independence: when loop A ends while the pair is active, the pair
/// fails and names A with its cause; loop B keeps running, a log that it then
/// delivers is decoded with B's schema as it would have been before, and the
/// failure stays attributed to A.
pub proof fn lemma_independence(
    m0: Multiplexer,
    ea: StreamEvent,
    m1: Multiplexer,
    act1: Action,
    log: RawLog,
    m2: Multiplexer,
    act2: Action,
)
    requires
        m0.wf(),
        m0.status == MuxStatus::Active,
        cause_of(ea) is Some,
        Multiplexer::steps_to(m0, LoopId::A, ea, m1, act1),
        Multiplexer::steps_to(m1, LoopId::B, StreamEvent::Log(log), m2, act2),
    ensures
        act1 == Action::Stop(cause_of(ea)->Some_0),
        m1.status == MuxStatus::Failed(LoopId::A, cause_of(ea)->Some_0),
        m1.loop_b == LoopState::Running,
        m2.status == m1.status,
        act2 is Emit,
        decodes_to(log, m0.schema_b, act2->Emit_0),
{
}

} // verus!
