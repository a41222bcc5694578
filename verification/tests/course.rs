use netharness::capability::{run_to_completion, RunningNode};
use netharness::id::{NodeId, RunAddress};
use netharness::lifecycle::{Effect, Phase, Signal};

fn addr(n: u32) -> RunAddress {
    RunAddress { bits: n }
}

#[test]
fn node_runs_its_course_with_barrier() {
    let p = Phase::Created;
    let (p, e) = p.on(true, Signal::Assigned(addr(5)));
    assert_eq!((p, e), (Phase::AddressAssigned, Effect::Publish(addr(5))));
    let (p, e) = p.on(true, Signal::Running);
    assert_eq!((p, e), (Phase::Ready, Effect::SignalReady));
    let (p, e) = p.on(true, Signal::Request(addr(1)));
    assert_eq!((p, e), (Phase::Connecting, Effect::Dial(addr(1))));
    let (p, e) = p.on(true, Signal::Request(addr(2)));
    assert_eq!((p, e), (Phase::Connecting, Effect::Dial(addr(2))));
    let (p, e) = p.on(true, Signal::Closed);
    assert_eq!((p, e), (Phase::Completed, Effect::Wait));
    assert!(p.is_completed());
}

#[test]
fn node_without_barrier_listens_at_once() {
    let (p, _) = Phase::Created.on(false, Signal::Assigned(addr(5)));
    let (p, e) = p.on(false, Signal::Running);
    assert_eq!((p, e), (Phase::Connecting, Effect::Listen));
    let (p, e) = p.on(false, Signal::Closed);
    assert_eq!((p, e), (Phase::Completed, Effect::Wait));
}

#[test]
fn node_with_no_request_goes_from_ready_to_completed() {
    assert_eq!(Phase::Ready.on(true, Signal::Closed), (Phase::Completed, Effect::Wait));
    assert!(!Phase::Ready.is_completed());
}

#[test]
fn signals_out_of_turn_change_nothing() {
    let all = [
        Phase::Created,
        Phase::AddressAssigned,
        Phase::Ready,
        Phase::Connecting,
        Phase::Completed,
    ];
    for barrier in [false, true] {
        for p in all {
            if p != Phase::Created {
                assert_eq!(p.on(barrier, Signal::Assigned(addr(1))), (p, Effect::Nothing));
            }
            if p != Phase::AddressAssigned {
                assert_eq!(p.on(barrier, Signal::Running), (p, Effect::Nothing));
            }
            if p != Phase::Ready && p != Phase::Connecting {
                assert_eq!(p.on(barrier, Signal::Request(addr(1))), (p, Effect::Nothing));
                assert_eq!(p.on(barrier, Signal::Closed), (p, Effect::Nothing));
            }
        }
    }
}

struct Recorder {
    dialed: Vec<u32>,
}

impl RunningNode for Recorder {
    type Result = Vec<u32>;

    fn connect_to(&mut self, addr: RunAddress) {
        self.dialed.push(addr.bits);
    }

    fn wait(self) -> Vec<u32> {
        self.dialed
    }
}

#[test]
fn run_to_completion_dials_in_order_then_waits() {
    let node = Recorder { dialed: Vec::new() };
    let requests = vec![addr(3), addr(1), addr(3), addr(2)];
    let (id, result) = run_to_completion(NodeId::new("n"), node, &requests);
    assert_eq!(id.as_str(), "n");
    assert_eq!(result, vec![3, 1, 3, 2]);
}

#[test]
fn run_to_completion_without_requests_only_waits() {
    let node = Recorder { dialed: Vec::new() };
    let (id, result) = run_to_completion(NodeId::new("quiet"), node, &Vec::new());
    assert_eq!(id, NodeId::new("quiet"));
    assert!(result.is_empty());
}
