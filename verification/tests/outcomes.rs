use std::cell::RefCell;
use std::collections::HashMap;
use std::rc::Rc;

use netharness::capability::{run_to_completion, RunningNode};
use netharness::id::{NodeId, RunAddress};
use netharness::lifecycle::{Effect, Phase, Signal};
use netharness::network::Network;
use netharness::orchestrator::{Action, Event, Policy};
use netharness::report::Report;

fn id(name: &str) -> NodeId {
    NodeId::new(name)
}

#[test]
fn empty_report_holds_nothing() {
    let report: Report<u8> = Report::new();
    assert_eq!(report.len(), 0);
    assert!(!report.contains(&id("a")));
    assert_eq!(report.get(&id("a")), None);
    assert!(report.ids().is_empty());
}

#[test]
fn collect_keeps_one_entry_per_node() {
    let report = Report::collect(vec![(id("a"), 1u8), (id("b"), 2), (id("c"), 3)]);
    assert_eq!(report.len(), 3);
    assert_eq!(report.get(&id("a")), Some(&1));
    assert_eq!(report.get(&id("b")), Some(&2));
    assert_eq!(report.get(&id("c")), Some(&3));
    assert_eq!(report.get(&id("d")), None);
    assert!(report.contains(&id("b")));
    let mut names: Vec<String> = report.ids().iter().map(|i| i.to_text()).collect();
    names.sort();
    assert_eq!(names, vec!["a".to_string(), "b".to_string(), "c".to_string()]);
}

#[test]
fn collect_keeps_the_last_outcome_of_a_repeated_node() {
    let report = Report::collect(vec![(id("a"), 1u8), (id("b"), 2), (id("a"), 3)]);
    assert_eq!(report.len(), 2);
    assert_eq!(report.get(&id("a")), Some(&3));
    assert_eq!(report.get(&id("b")), Some(&2));
}

#[test]
fn into_entries_hands_every_entry_out_once() {
    let report = Report::collect(vec![(id("a"), 1u8), (id("b"), 2), (id("a"), 3)]);
    let map: HashMap<NodeId, u8> = report.into_entries().into_iter().collect();
    assert_eq!(map.len(), 2);
    assert_eq!(map.get(&id("a")), Some(&3));
    assert_eq!(map.get(&id("b")), Some(&2));
}

#[derive(Clone, Copy, PartialEq, Eq, Debug)]
enum Role {
    Sender,
    Receiver,
}

type Wire = Rc<RefCell<HashMap<u32, Vec<u8>>>>;

struct Peer {
    role: Role,
    address: RunAddress,
    wire: Wire,
}

impl RunningNode for Peer {
    type Result = Option<Vec<u8>>;

    fn connect_to(&mut self, addr: RunAddress) {
        if self.role == Role::Sender {
            self.wire.borrow_mut().entry(addr.bits).or_default().extend_from_slice(b"Hello World");
        }
    }

    fn wait(self) -> Option<Vec<u8>> {
        match self.role {
            Role::Sender => None,
            Role::Receiver => {
                Some(self.wire.borrow().get(&self.address.bits).cloned().unwrap_or_default())
            }
        }
    }
}

fn run_pair(barrier: bool) -> Report<Option<Vec<u8>>> {
    let mut plan: Network<Role> = Network::default();
    let sender = plan.node("sender", Role::Sender);
    let receiver = plan.node("receiver", Role::Receiver);
    plan.connect_to_all(sender, &[receiver]);
    let (mut control, nodes) = plan.start(Policy { barrier, strict: false });
    assert_eq!(nodes.len(), 2);

    let wire: Wire = Rc::new(RefCell::new(HashMap::new()));
    let mut released: Option<Vec<_>> = None;
    let mut note = |action: Action| {
        if let Action::Replay(commands) = action {
            assert!(released.is_none());
            released = Some(commands);
        }
    };
    note(control.step(&Event::Spawned));
    let mut running = Vec::new();
    for (k, node) in nodes.into_iter().enumerate() {
        let (name, role) = node.into_parts();
        let address = RunAddress { bits: 0x0a00_0001 + k as u32 };
        let (phase, effect) = Phase::Created.on(barrier, Signal::Assigned(address));
        assert_eq!(effect, Effect::Publish(address));
        note(control.step(&Event::AddressPublished(name.clone(), address)));
        let peer = Peer { role, address, wire: wire.clone() };
        let (phase, effect) = phase.on(barrier, Signal::Running);
        if effect == Effect::SignalReady {
            note(control.step(&Event::Ready(name.clone())));
        }
        running.push((name, peer, phase));
    }
    let commands = released.expect("the commands are due");
    assert_eq!(commands.len(), 1);
    assert_eq!(commands[0].dialer.as_str(), "sender");
    assert_eq!(commands[0].target.as_str(), "receiver");

    let mut outcomes = Vec::new();
    for (name, peer, _phase) in running {
        let requests: Vec<RunAddress> =
            commands.iter().filter(|c| c.dialer == name).map(|c| c.address).collect();
        outcomes.push(run_to_completion(name, peer, &requests));
    }
    Report::collect(outcomes)
}

#[test]
fn sender_and_receiver_end_to_end() {
    let report = run_pair(true);
    assert_eq!(report.len(), 2);
    assert_eq!(report.get(&id("sender")), Some(&None));
    assert_eq!(report.get(&id("receiver")), Some(&Some(b"Hello World".to_vec())));
}

#[test]
fn every_registered_node_has_one_entry() {
    for barrier in [false, true] {
        let report = run_pair(barrier);
        assert_eq!(report.len(), 2);
        assert!(report.contains(&id("sender")));
        assert!(report.contains(&id("receiver")));
        assert!(!report.contains(&id("router")));
    }
}

#[test]
fn running_twice_gives_the_same_report() {
    let first = run_pair(true);
    let second = run_pair(true);
    assert_eq!(first.len(), second.len());
    for name in ["sender", "receiver"] {
        assert_eq!(first.get(&id(name)), second.get(&id(name)));
    }
}

fn joined(policy: Policy) -> netharness::orchestrator::Orchestrator {
    let mut plan: Network<u8> = Network::default();
    let a = plan.node("a", 0);
    let b = plan.node("b", 0);
    plan.connect_all(&[a.clone(), b.clone()]);
    let (mut control, _) = plan.start(policy);
    control.step(&Event::AddressPublished(a, RunAddress { bits: 1 }));
    control.step(&Event::AddressPublished(b, RunAddress { bits: 2 }));
    control
}

#[test]
fn conclude_gives_one_entry_per_registered_node() {
    let control = joined(Policy { barrier: false, strict: false });
    let report = control.conclude(vec![(id("b"), 20u8), (id("a"), 10)]).unwrap();
    assert_eq!(report.len(), 2);
    assert_eq!(report.get(&id("a")), Some(&10));
    assert_eq!(report.get(&id("b")), Some(&20));
}

#[test]
fn conclude_gives_no_partial_report() {
    let control = joined(Policy { barrier: false, strict: false });
    assert!(control.conclude(vec![(id("a"), 10u8)]).is_none());
    assert!(control.conclude(vec![(id("a"), 10u8), (id("a"), 11)]).is_none());
    assert!(control.conclude(vec![(id("a"), 10u8), (id("c"), 11)]).is_none());
    assert!(control.conclude(vec![(id("a"), 1u8), (id("b"), 2), (id("c"), 3)]).is_none());
    assert!(control.conclude(Vec::<(NodeId, u8)>::new()).is_none());
}

#[test]
fn conclude_needs_the_commands_released() {
    let waiting = joined(Policy { barrier: true, strict: false });
    assert!(waiting.conclude(vec![(id("a"), 1u8), (id("b"), 2)]).is_none());
    let mut plan: Network<u8> = Network::default();
    let a = plan.node("a", 0);
    let (mut lost, _) = plan.start(Policy { barrier: false, strict: true });
    assert!(matches!(lost.step(&Event::AddressUnavailable(a)), Action::Abort));
    assert!(lost.conclude(vec![(id("a"), 1u8)]).is_none());
}
