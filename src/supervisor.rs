use vstd::prelude::*;
use crate::remap::{is_arrangement, is_consistent_report, respawned, remap_slots, lemma_respawn_keeps_arrangement};

verus! {

/// Why supervision stopped.
#[derive(Clone, Copy, Debug, PartialEq, Eq, Structural)]
pub enum Fault {
    /// A completion report did not match the slot table.
    InvalidIndexState,
    /// An event came that the current phase does not expect.
    UnexpectedEvent,
    /// Invoking a factory to respawn a task failed.
    RespawnFailed,
}

/// Where the supervisor stands between two waits.
#[derive(Clone, Copy, Debug, PartialEq, Eq, Structural)]
pub enum Phase {
    /// Every slot holds a running task; waiting for the first to complete.
    Watching,
    /// A task completed and its factory is being invoked.
    Respawning,
    /// Supervision has ended for good.
    Halted(Fault),
}

/// What the driver of the supervisor has to do next.
#[derive(Clone, Copy, Debug, PartialEq, Eq, Structural)]
pub enum Action {
    /// Wait for the first running task to complete.
    Wait,
    /// Invoke the factory with this index once, and report the outcome.
    Invoke(usize),
    /// Stop supervising.
    Halt(Fault),
}

/// What the driver reports to the supervisor.
#[derive(Debug)]
pub enum Event {
    /// The task at `position` completed; `remaining` holds the slots of the
    /// tasks still running, in the order the completion primitive handed
    /// them back.
    Completed { position: usize, remaining: Vec<usize> },
    /// The factory asked for was invoked and its new task appended.
    Respawned,
    /// Invoking the factory asked for failed.
    RespawnFailed,
}

/// The bookkeeping of a supervisor over a fixed registry of factories: which
/// factory owns each slot of the active task set.
pub struct Supervisor {
    slots: Vec<usize>,
    pending: Vec<usize>,
    phase: Phase,
}

/// The mathematical state of a supervisor: `slots[i]` is the factory that
/// owns slot `i`; `pending` is the table that takes effect once the factory
/// being invoked has produced its task.
pub struct SupervisorView {
    pub slots: Seq<usize>,
    pub pending: Seq<usize>,
    pub phase: Phase,
}

/// With `n` factories: `n >= 1`, each factory owns exactly one slot, and
/// while a factory is invoked the table to come is such an arrangement too.
pub open spec fn supervised(s: SupervisorView, n: nat) -> bool {
    &&& 1 <= n <= usize::MAX
    &&& is_arrangement(s.slots, n)
    &&& s.phase == Phase::Respawning ==> is_arrangement(s.pending, n)
}

/// `s` with supervision ended for `f`.
pub open spec fn halted(s: SupervisorView, f: Fault) -> SupervisorView {
    SupervisorView { slots: s.slots, pending: s.pending, phase: Phase::Halted(f) }
}

/// One transition: the next state and the action asked of the driver.
pub open spec fn next(s: SupervisorView, e: Event) -> (SupervisorView, Action) {
    match s.phase {
        Phase::Halted(f) => (s, Action::Halt(f)),
        Phase::Watching => match e {
            Event::Completed { position, remaining } => {
                if is_consistent_report(s.slots.len(), position, remaining@) {
                    (
                        SupervisorView {
                            slots: s.slots,
                            pending: respawned(s.slots, position, remaining@),
                            phase: Phase::Respawning,
                        },
                        Action::Invoke(s.slots[position as int]),
                    )
                } else {
                    (halted(s, Fault::InvalidIndexState), Action::Halt(Fault::InvalidIndexState))
                }
            },
            _ => (halted(s, Fault::UnexpectedEvent), Action::Halt(Fault::UnexpectedEvent)),
        },
        Phase::Respawning => match e {
            Event::Respawned => (
                SupervisorView { slots: s.pending, pending: Seq::empty(), phase: Phase::Watching },
                Action::Wait,
            ),
            Event::RespawnFailed => (halted(s, Fault::RespawnFailed), Action::Halt(Fault::RespawnFailed)),
            Event::Completed { .. } => (halted(s, Fault::UnexpectedEvent), Action::Halt(Fault::UnexpectedEvent)),
        },
    }
}

/// Each transition keeps the invariant: the set holds one task per factory
/// and the slots stay numbered `0..n` without gaps or repeats.
pub proof fn lemma_step_keeps_invariant(s: SupervisorView, e: Event, n: nat)
    requires
        supervised(s, n),
    ensures
        supervised(next(s, e).0, n),
{
    if s.phase == Phase::Watching {
        if let Event::Completed { position, remaining } = e {
            if is_consistent_report(s.slots.len(), position, remaining@) {
                lemma_respawn_keeps_arrangement(s.slots, position, remaining@, n);
            }
        }
    }
}

/// The state reached from `s` after the events of `events`, in order.
pub open spec fn run(s: SupervisorView, events: Seq<Event>) -> SupervisorView
    decreases events.len(),
{
    if events.len() == 0 {
        s
    } else {
        run(next(s, events[0]).0, events.drop_first())
    }
}

/// At every point of any run, the set holds exactly `n` tasks, one per
/// factory, in slots numbered `0..n`.
pub proof fn lemma_run_keeps_invariant(s: SupervisorView, events: Seq<Event>, n: nat)
    requires
        supervised(s, n),
    ensures
        supervised(run(s, events), n),
        run(s, events).slots.len() == n,
    decreases events.len(),
{
    if events.len() > 0 {
        lemma_step_keeps_invariant(s, events[0], n);
        lemma_run_keeps_invariant(next(s, events[0]).0, events.drop_first(), n);
    }
}

/// The slot-to-factory mapping of a table.
pub open spec fn slot_map(slots: Seq<usize>) -> Map<int, usize> {
    Map::new(|i: int| 0 <= i < slots.len(), |i: int| slots[i])
}

/// The slot-to-factory mapping is a bijection from the slots `0..n` onto the
/// factories `0..n`.
pub proof fn lemma_slot_map_is_bijection(s: SupervisorView, n: nat)
    requires
        supervised(s, n),
    ensures
        slot_map(s.slots).dom() == Set::new(|i: int| 0 <= i < n),
        slot_map(s.slots).is_injective(),
        forall|f: usize| f < n <==> #[trigger] slot_map(s.slots).contains_value(f),
{
    let m = slot_map(s.slots);
    assert(m.dom() =~= Set::new(|i: int| 0 <= i < n));
    assert forall|f: usize| f < n <==> #[trigger] m.contains_value(f) by {
        if f < n {
            assert(s.slots.contains(f));
            let i = choose|i: int| 0 <= i < s.slots.len() && s.slots[i] == f;
            assert(m.dom().contains(i) && m[i] == f);
        }
        if m.contains_value(f) {
            let i = choose|i: int| #[trigger] m.dom().contains(i) && m[i] == f;
            assert(s.slots[i] < n);
        }
    }
}

/// No factory has two tasks in flight: when a completion is accepted, the
/// factory invoked is not the factory of any task still running, and the
/// tasks still running come from distinct factories.
pub proof fn lemma_one_task_per_factory(s: SupervisorView, e: Event, n: nat)
    requires
        supervised(s, n),
        next(s, e).1 matches Action::Invoke(_),
    ensures
        e matches Event::Completed { position, remaining } && {
            &&& next(s, e).1 == Action::Invoke(s.slots[position as int])
            &&& forall|k: int|
                0 <= k < remaining@.len() ==> s.slots[#[trigger] remaining@[k] as int] != s.slots[position as int]
            &&& forall|k: int, j: int|
                0 <= k < remaining@.len() && 0 <= j < remaining@.len() && k != j
                    ==> s.slots[remaining@[k] as int] != s.slots[remaining@[j] as int]
        },
{
    if let Event::Completed { position, remaining } = e {
        let full = remaining@.push(position);
        assert(full[full.len() - 1] == position);
        assert forall|k: int| 0 <= k < remaining@.len() implies s.slots[#[trigger] remaining@[k] as int]
            != s.slots[position as int] by {
            assert(full[k] == remaining@[k]);
        }
        assert forall|k: int, j: int|
            0 <= k < remaining@.len() && 0 <= j < remaining@.len() && k != j implies s.slots[remaining@[k] as int]
                != s.slots[remaining@[j] as int] by {
            assert(full[k] == remaining@[k]);
            assert(full[j] == remaining@[j]);
        }
    }
}

/// A completion is followed by exactly one invocation, of the factory that
/// produced the completed task, before any other completion is processed:
/// whatever event comes next asks for no further invocation and processes no
/// completion, and once the respawn is reported that factory owns the tail
/// slot.
pub proof fn lemma_one_respawn_per_completion(s: SupervisorView, e1: Event, e2: Event, n: nat)
    requires
        supervised(s, n),
        next(s, e1).1 matches Action::Invoke(_),
    ensures
        e1 matches Event::Completed { position, .. } && next(s, e1).1 == Action::Invoke(s.slots[position as int]),
        !(next(next(s, e1).0, e2).1 matches Action::Invoke(_)),
        e2 matches Event::Completed { .. } ==> next(next(s, e1).0, e2).1 == Action::Halt(Fault::UnexpectedEvent),
        e2 matches Event::Respawned ==> ({
            let after = next(next(s, e1).0, e2).0;
            &&& next(next(s, e1).0, e2).1 == Action::Wait
            &&& after.phase == Phase::Watching
            &&& e1 matches Event::Completed { position, .. } && after.slots[n - 1] == s.slots[position as int]
        }),
{
    lemma_step_keeps_invariant(s, e1, n);
}

impl View for Supervisor {
    type V = SupervisorView;

    closed spec fn view(&self) -> SupervisorView {
        SupervisorView { slots: self.slots@, pending: self.pending@, phase: self.phase }
    }
}

impl Supervisor {
    /// The number of factories, fixed for the supervisor's lifetime.
    pub open spec fn factories(&self) -> nat {
        self@.slots.len()
    }

    /// The supervisor's state keeps one slot per factory.
    pub open spec fn well_formed(&self) -> bool {
        supervised(self@, self.factories())
    }

    /// Starts supervising `n` factories: task `i` comes from factory `i`.
    /// Returns `None` when there is no factory at all.
    pub fn new(n: usize) -> (r: Option<Supervisor>)
        ensures
            r.is_none() <==> n == 0,
            r matches Some(s) ==> {
                &&& s.well_formed()
                &&& s@.slots == Seq::new(n as nat, |i: int| i as usize)
                &&& s@.phase == Phase::Watching
            },
    {
        if n == 0 {
            return None;
        }
        let mut slots: Vec<usize> = Vec::new();
        let mut i: usize = 0;
        while i < n
            invariant
                i <= n,
                slots@ == Seq::new(i as nat, |j: int| j as usize),
            decreases n - i,
        {
            slots.push(i);
            i = i + 1;
            assert(slots@ =~= Seq::new(i as nat, |j: int| j as usize));
        }
        proof {
            let s = slots@;
            assert forall|v: usize| v < n implies #[trigger] s.contains(v) by {
                assert(s[v as int] == v);
            }
        }
        Some(Supervisor { slots, pending: Vec::new(), phase: Phase::Watching })
    }

    /// Takes one event and returns what the driver must do next.
    pub fn step(&mut self, event: Event) -> (a: Action)
        requires
            old(self).well_formed(),
        ensures
            (final(self)@, a) == next(old(self)@, event),
            final(self).factories() == old(self).factories(),
            final(self).well_formed(),
    {
        proof {
            lemma_step_keeps_invariant(self@, event, self.factories());
        }
        match self.phase {
            Phase::Halted(f) => Action::Halt(f),
            Phase::Watching => match event {
                Event::Completed { position, remaining } => {
                    match remap_slots(&self.slots, position, &remaining) {
                        Some(pending) => {
                            proof {
                                let full = remaining@.push(position);
                                assert(full[full.len() - 1] == position);
                            }
                            let f = self.slots[position];
                            self.pending = pending;
                            self.phase = Phase::Respawning;
                            Action::Invoke(f)
                        },
                        None => {
                            self.phase = Phase::Halted(Fault::InvalidIndexState);
                            Action::Halt(Fault::InvalidIndexState)
                        },
                    }
                },
                _ => {
                    self.phase = Phase::Halted(Fault::UnexpectedEvent);
                    Action::Halt(Fault::UnexpectedEvent)
                },
            },
            Phase::Respawning => match event {
                Event::Respawned => {
                    std::mem::swap(&mut self.slots, &mut self.pending);
                    self.pending = Vec::new();
                    self.phase = Phase::Watching;
                    Action::Wait
                },
                Event::RespawnFailed => {
                    self.phase = Phase::Halted(Fault::RespawnFailed);
                    Action::Halt(Fault::RespawnFailed)
                },
                Event::Completed { .. } => {
                    self.phase = Phase::Halted(Fault::UnexpectedEvent);
                    Action::Halt(Fault::UnexpectedEvent)
                },
            },
        }
    }

    /// The number of slots, which is the number of factories.
    pub fn len(&self) -> (r: usize)
        ensures
            r == self@.slots.len(),
    {
        self.slots.len()
    }

    /// The factory that owns `slot`, if there is such a slot.
    pub fn factory_at(&self, slot: usize) -> (r: Option<usize>)
        ensures
            r == (if slot < self@.slots.len() { Some(self@.slots[slot as int]) } else { None::<usize> }),
    {
        if slot < self.slots.len() {
            Some(self.slots[slot])
        } else {
            None
        }
    }

    /// The slot that `factory` owns, if it owns one.
    pub fn slot_of(&self, factory: usize) -> (r: Option<usize>)
        ensures
            r matches Some(i) ==> i < self@.slots.len() && self@.slots[i as int] == factory,
            r.is_none() <==> !self@.slots.contains(factory),
    {
        let mut i: usize = 0;
        while i < self.slots.len()
            invariant
                i <= self@.slots.len(),
                forall|j: int| 0 <= j < i ==> self@.slots[j] != factory,
            decreases self@.slots.len() - i,
        {
            if self.slots[i] == factory {
                return Some(i);
            }
            i = i + 1;
        }
        None
    }

    /// The current phase.
    pub fn phase(&self) -> (r: Phase)
        ensures
            r == self@.phase,
    {
        self.phase
    }
}

} // verus!
