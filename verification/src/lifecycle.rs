//! The course of one node through a run.
use vstd::prelude::*;
use crate::id::RunAddress;

verus! {

/// Where a node stands in its run.
#[derive(Clone, Copy, Debug, PartialEq, Eq, Structural)]
pub enum Phase {
    /// The channels of the node are reserved; its context has no address yet.
    Created,
    /// The context has its address and published it; the node is being set up.
    AddressAssigned,
    /// The node is set up and has signalled so; no dial request has come yet.
    Ready,
    /// The node takes dial requests until its request channel is closed.
    Connecting,
    /// The request channel is closed; the node runs to its end.
    Completed,
}

/// Something that happens to a node's execution context.
#[derive(Clone, Copy, Debug, PartialEq, Eq, Structural)]
pub enum Signal {
    /// The substrate assigned this address to the context.
    Assigned(RunAddress),
    /// The node is set up and can accept connections.
    Running,
    /// A dial request came in on the request channel.
    Request(RunAddress),
    /// The request channel was closed.
    Closed,
}

/// What the execution context has to do next.
#[derive(Clone, Copy, Debug, PartialEq, Eq, Structural)]
pub enum Effect {
    /// Publish the address on the address channel, then set the node up.
    Publish(RunAddress),
    /// Signal readiness, then take dial requests.
    SignalReady,
    /// Take dial requests, without a readiness signal.
    Listen,
    /// Ask the node to connect to this address.
    Dial(RunAddress),
    /// Wait for the node to run to its end and hand its result back.
    Wait,
    /// The signal does not fit the phase: do nothing.
    Nothing,
}

/// The step of a node: the phase after a signal, and what to do.
///
/// With `barrier` set, a node that is set up signals readiness before it
/// takes requests; without it the node takes requests at once. A signal
/// that does not fit the phase changes nothing.
pub open spec fn advance(phase: Phase, barrier: bool, signal: Signal) -> (Phase, Effect) {
    match (phase, signal) {
        (Phase::Created, Signal::Assigned(a)) => (Phase::AddressAssigned, Effect::Publish(a)),
        (Phase::AddressAssigned, Signal::Running) => if barrier {
            (Phase::Ready, Effect::SignalReady)
        } else {
            (Phase::Connecting, Effect::Listen)
        },
        (Phase::Ready, Signal::Request(a)) => (Phase::Connecting, Effect::Dial(a)),
        (Phase::Connecting, Signal::Request(a)) => (Phase::Connecting, Effect::Dial(a)),
        (Phase::Ready, Signal::Closed) => (Phase::Completed, Effect::Wait),
        (Phase::Connecting, Signal::Closed) => (Phase::Completed, Effect::Wait),
        _ => (phase, Effect::Nothing),
    }
}

/// The place of a phase in the course of a node.
pub open spec fn rank(phase: Phase) -> int {
    match phase {
        Phase::Created => 0,
        Phase::AddressAssigned => 1,
        Phase::Ready => 2,
        Phase::Connecting => 3,
        Phase::Completed => 4,
    }
}

/// The node takes dial requests in this phase.
pub open spec fn listening(phase: Phase) -> bool {
    phase == Phase::Ready || phase == Phase::Connecting
}

impl Phase {
    /// Takes a signal: returns the next phase and what to do.
    pub fn on(self, barrier: bool, signal: Signal) -> (step: (Phase, Effect))
        ensures
            step == advance(self, barrier, signal),
    {
        match signal {
            Signal::Assigned(a) => match self {
                Phase::Created => (Phase::AddressAssigned, Effect::Publish(a)),
                _ => (self, Effect::Nothing),
            },
            Signal::Running => match self {
                Phase::AddressAssigned => if barrier {
                    (Phase::Ready, Effect::SignalReady)
                } else {
                    (Phase::Connecting, Effect::Listen)
                },
                _ => (self, Effect::Nothing),
            },
            Signal::Request(a) => match self {
                Phase::Ready | Phase::Connecting => (Phase::Connecting, Effect::Dial(a)),
                _ => (self, Effect::Nothing),
            },
            Signal::Closed => match self {
                Phase::Ready | Phase::Connecting => (Phase::Completed, Effect::Wait),
                _ => (self, Effect::Nothing),
            },
        }
    }

    /// Whether the node has run its course.
    pub fn is_completed(self) -> (done: bool)
        ensures
            done == (self == Phase::Completed),
    {
        match self {
            Phase::Completed => true,
            _ => false,
        }
    }
}

/// The phase after a list of signals, and what was to do at each of them.
pub open spec fn course(phase: Phase, barrier: bool, signals: Seq<Signal>) -> (Phase, Seq<Effect>)
    decreases signals.len(),
{
    if signals.len() == 0 {
        (phase, Seq::empty())
    } else {
        let before = course(phase, barrier, signals.drop_last());
        let step = advance(before.0, barrier, signals.last());
        (step.0, before.1.push(step.1))
    }
}

/// The requests of a list, each as a signal.
pub open spec fn requests(addresses: Seq<RunAddress>) -> Seq<Signal> {
    addresses.map_values(|a: RunAddress| Signal::Request(a))
}

/// The dials of a list, each as an effect.
pub open spec fn dials(addresses: Seq<RunAddress>) -> Seq<Effect> {
    addresses.map_values(|a: RunAddress| Effect::Dial(a))
}

/// A node never goes back: a step leaves the phase where it is or moves it
/// on, and from `Completed` nothing moves it.
pub proof fn lemma_phases_move_on(phase: Phase, barrier: bool, signal: Signal)
    ensures
        rank(advance(phase, barrier, signal).0) >= rank(phase),
        phase == Phase::Completed ==> advance(phase, barrier, signal) == (phase, Effect::Nothing),
{
}

/// A node dials only while it takes requests, and then it dials the
/// address of the request.
pub proof fn lemma_dial_needs_listening(phase: Phase, barrier: bool, signal: Signal)
    ensures
        advance(phase, barrier, signal).1 is Dial ==> listening(phase) && signal
            == Signal::Request(advance(phase, barrier, signal).1->Dial_0),
{
}

/// A node comes to take requests only by being set up: a step that makes
/// it listen starts from `AddressAssigned` with the signal `Running`, and
/// with the barrier it is the step at which the node signals readiness.
pub proof fn lemma_listening_follows_setup(phase: Phase, barrier: bool, signal: Signal)
    requires
        !listening(phase),
        listening(advance(phase, barrier, signal).0),
    ensures
        phase == Phase::AddressAssigned,
        signal == Signal::Running,
        barrier ==> advance(phase, barrier, signal) == (Phase::Ready, Effect::SignalReady),
        !barrier ==> advance(phase, barrier, signal) == (Phase::Connecting, Effect::Listen),
{
}

/// The course over two lists of signals, one after the other.
pub proof fn lemma_course_split(phase: Phase, barrier: bool, first: Seq<Signal>, second: Seq<Signal>)
    ensures
        course(phase, barrier, first + second) == (
            course(course(phase, barrier, first).0, barrier, second).0,
            course(phase, barrier, first).1 + course(
                course(phase, barrier, first).0,
                barrier,
                second,
            ).1,
        ),
    decreases second.len(),
{
    let mid = course(phase, barrier, first);
    if second.len() == 0 {
        assert(first + second =~= first);
        assert(mid.1 + Seq::<Effect>::empty() =~= mid.1);
    } else {
        lemma_course_split(phase, barrier, first, second.drop_last());
        assert((first + second).drop_last() =~= first + second.drop_last());
        assert((first + second).last() == second.last());
        let head = course(mid.0, barrier, second.drop_last());
        let step = advance(head.0, barrier, second.last());
        assert((mid.1 + head.1).push(step.1) =~= mid.1 + head.1.push(step.1));
    }
}

/// A node that takes requests dials each address that comes in, in the
/// order in which they come in, and goes on taking requests.
pub proof fn lemma_requests_are_dialed_in_order(
    phase: Phase,
    barrier: bool,
    addresses: Seq<RunAddress>,
)
    requires
        listening(phase),
    ensures
        course(phase, barrier, requests(addresses)).1 == dials(addresses),
        listening(course(phase, barrier, requests(addresses)).0),
        addresses.len() > 0 ==> course(phase, barrier, requests(addresses)).0 == Phase::Connecting,
    decreases addresses.len(),
{
    if addresses.len() == 0 {
        assert(course(phase, barrier, requests(addresses)).1 =~= dials(addresses));
    } else {
        lemma_requests_are_dialed_in_order(phase, barrier, addresses.drop_last());
        assert(requests(addresses).drop_last() =~= requests(addresses.drop_last()));
        assert(requests(addresses).last() == Signal::Request(addresses.last()));
        assert(dials(addresses) =~= dials(addresses.drop_last()).push(
            Effect::Dial(addresses.last()),
        ));
    }
}

/// The whole course of a node: it publishes its address, is set up, with
/// the barrier signals readiness, dials every request in the order of
/// receipt, and when the channel is closed waits for its own end.
pub proof fn lemma_whole_course(barrier: bool, address: RunAddress, addresses: Seq<RunAddress>)
    ensures
        course(
            Phase::Created,
            barrier,
            seq![Signal::Assigned(address), Signal::Running] + requests(addresses)
                + seq![Signal::Closed],
        ) == (
            Phase::Completed,
            seq![
                Effect::Publish(address),
                if barrier {
                    Effect::SignalReady
                } else {
                    Effect::Listen
                },
            ] + dials(addresses) + seq![Effect::Wait],
        ),
{
    let setup = seq![Signal::Assigned(address), Signal::Running];
    let close = seq![Signal::Closed];
    assert(setup.drop_last() =~= seq![Signal::Assigned(address)]);
    assert(seq![Signal::Assigned(address)].drop_last() =~= Seq::<Signal>::empty());
    reveal_with_fuel(course, 3);
    let started = course(Phase::Created, barrier, setup);
    assert(started.1 =~= seq![
        Effect::Publish(address),
        if barrier {
            Effect::SignalReady
        } else {
            Effect::Listen
        },
    ]);
    assert(listening(started.0));
    lemma_requests_are_dialed_in_order(started.0, barrier, addresses);
    lemma_course_split(Phase::Created, barrier, setup, requests(addresses));
    let taken = course(Phase::Created, barrier, setup + requests(addresses));
    assert(listening(taken.0));
    assert(close.drop_last() =~= Seq::<Signal>::empty());
    assert(course(taken.0, barrier, close).1 =~= seq![Effect::Wait]);
    lemma_course_split(Phase::Created, barrier, setup + requests(addresses), close);
}

} // verus!
