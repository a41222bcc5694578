use netharness::id::{NodeId, RunAddress};
use netharness::network::Network;
use netharness::orchestrator::{Action, AddressSlot, DialCommand, Event, Orchestrator, Policy, Stage};

fn addr(n: u32) -> RunAddress {
    RunAddress { bits: 0x0a00_0000 + n }
}

fn id(name: &str) -> NodeId {
    NodeId::new(name)
}

fn shown(commands: &Vec<DialCommand>) -> Vec<(String, String, u32)> {
    commands.iter().map(|c| (c.dialer.to_text(), c.target.to_text(), c.address.bits)).collect()
}

fn row(a: &str, b: &str, n: u32) -> (String, String, u32) {
    (a.to_string(), b.to_string(), 0x0a00_0000 + n)
}

fn is_hold(action: &Action) -> bool {
    matches!(action, Action::Hold)
}

fn star(k: usize, policy: Policy) -> Orchestrator {
    let mut plan: Network<u8> = Network::default();
    let hub = plan.node("hub", 0);
    let mut satellites = Vec::new();
    for i in 0..k {
        satellites.push(plan.node(&format!("s{}", i), 1));
    }
    plan.connect_each_to(&satellites, hub);
    plan.start(policy).0
}

#[test]
fn barrier_holds_every_dial_until_the_hub_is_ready() {
    for k in 1..5usize {
        let mut control = star(k, Policy { barrier: true, strict: false });
        assert!(is_hold(&control.step(&Event::Spawned)));
        for i in 0..k {
            let name = format!("s{}", i);
            assert!(is_hold(&control.step(&Event::AddressPublished(id(&name), addr(i as u32 + 1)))));
            assert!(is_hold(&control.step(&Event::Ready(id(&name)))));
        }
        assert!(is_hold(&control.step(&Event::AddressPublished(id("hub"), addr(0)))));
        assert_eq!(control.stage(), Stage::Collecting);
        match control.step(&Event::Ready(id("hub"))) {
            Action::Replay(commands) => {
                assert_eq!(commands.len(), k);
                for (i, c) in commands.iter().enumerate() {
                    assert_eq!(c.dialer.to_text(), format!("s{}", i));
                    assert_eq!(c.target.as_str(), "hub");
                    assert_eq!(c.address, addr(0));
                }
            }
            _ => panic!("the commands are due"),
        }
        assert_eq!(control.stage(), Stage::Joining);
    }
}

#[test]
fn barrier_waits_for_the_last_satellite_too() {
    let mut control = star(2, Policy { barrier: true, strict: false });
    assert!(is_hold(&control.step(&Event::AddressPublished(id("hub"), addr(0)))));
    assert!(is_hold(&control.step(&Event::Ready(id("hub")))));
    assert!(is_hold(&control.step(&Event::AddressPublished(id("s0"), addr(1)))));
    assert!(is_hold(&control.step(&Event::AddressPublished(id("s1"), addr(2)))));
    assert!(is_hold(&control.step(&Event::Ready(id("s1")))));
    match control.step(&Event::Ready(id("s0"))) {
        Action::Replay(commands) => {
            assert_eq!(shown(&commands), vec![row("s0", "hub", 0), row("s1", "hub", 0)]);
        }
        _ => panic!("the commands are due"),
    }
}

#[test]
fn without_barrier_the_last_address_releases_the_commands() {
    let mut control = star(2, Policy { barrier: false, strict: false });
    assert!(is_hold(&control.step(&Event::Spawned)));
    assert!(is_hold(&control.step(&Event::AddressPublished(id("s0"), addr(1)))));
    assert!(is_hold(&control.step(&Event::AddressPublished(id("hub"), addr(9)))));
    match control.step(&Event::AddressPublished(id("s1"), addr(2))) {
        Action::Replay(commands) => {
            assert_eq!(shown(&commands), vec![row("s0", "hub", 9), row("s1", "hub", 9)]);
        }
        _ => panic!("the commands are due"),
    }
    assert_eq!(control.stage(), Stage::Joining);
}

#[test]
fn replay_follows_the_order_of_declaration() {
    let mut plan: Network<u8> = Network::default();
    let t = plan.node("t", 0);
    let a = plan.node("a", 1);
    let b = plan.node("b", 1);
    let c = plan.node("c", 1);
    plan.connect_each_to(&[a.clone()], t.clone());
    plan.connect_to_all(b.clone(), &[c.clone(), t.clone()]);
    plan.connect_each_to(&[c.clone()], t.clone());
    plan.connect_each_to(&[a.clone()], b.clone());
    let (mut control, _) = plan.start(Policy { barrier: false, strict: false });
    control.step(&Event::AddressPublished(c, addr(3)));
    control.step(&Event::AddressPublished(t, addr(7)));
    control.step(&Event::AddressPublished(b, addr(2)));
    match control.step(&Event::AddressPublished(a, addr(1))) {
        Action::Replay(commands) => {
            assert_eq!(
                shown(&commands),
                vec![
                    row("a", "t", 7),
                    row("b", "c", 3),
                    row("b", "t", 7),
                    row("c", "t", 7),
                    row("a", "b", 2),
                ]
            );
            let into_t: Vec<String> = commands
                .iter()
                .filter(|c| c.target.as_str() == "t")
                .map(|c| c.dialer.to_text())
                .collect();
            assert_eq!(into_t, vec!["a".to_string(), "b".to_string(), "c".to_string()]);
        }
        _ => panic!("the commands are due"),
    }
}

#[test]
fn empty_plan_is_released_when_spawned() {
    let plan: Network<u8> = Network::default();
    let (mut control, nodes) = plan.start(Policy { barrier: true, strict: true });
    assert!(nodes.is_empty());
    match control.step(&Event::Spawned) {
        Action::Replay(commands) => assert!(commands.is_empty()),
        _ => panic!("the commands are due"),
    }
    assert_eq!(control.stage(), Stage::Joining);
}

#[test]
fn lost_address_skips_its_edges_when_lenient() {
    let mut plan: Network<u8> = Network::default();
    let a = plan.node("a", 0);
    let b = plan.node("b", 0);
    let c = plan.node("c", 0);
    plan.connect_all(&[a.clone(), b.clone(), c.clone()]);
    let (mut control, _) = plan.start(Policy { barrier: false, strict: false });
    assert!(is_hold(&control.step(&Event::AddressPublished(a.clone(), addr(1)))));
    assert!(is_hold(&control.step(&Event::AddressUnavailable(b.clone()))));
    assert_eq!(control.slot(&b), Some(AddressSlot::Unavailable));
    assert_eq!(control.slot(&a), Some(AddressSlot::Published(addr(1))));
    assert_eq!(control.slot(&c), Some(AddressSlot::Pending));
    assert_eq!(control.slot(&id("z")), None);
    match control.step(&Event::AddressPublished(c, addr(3))) {
        Action::Replay(commands) => {
            assert_eq!(
                shown(&commands),
                vec![row("a", "c", 3), row("b", "a", 1), row("b", "c", 3), row("c", "a", 1)]
            );
        }
        _ => panic!("the commands are due"),
    }
}

#[test]
fn lost_address_ends_a_strict_run() {
    let mut control = star(1, Policy { barrier: false, strict: true });
    assert!(is_hold(&control.step(&Event::AddressPublished(id("hub"), addr(0)))));
    assert!(matches!(control.step(&Event::AddressUnavailable(id("s0"))), Action::Abort));
    assert_eq!(control.stage(), Stage::Aborted);
    assert!(is_hold(&control.step(&Event::AddressPublished(id("s0"), addr(1)))));
    assert_eq!(control.stage(), Stage::Aborted);
}

#[test]
fn lost_address_ends_a_run_with_barrier() {
    let mut control = star(1, Policy { barrier: true, strict: false });
    assert!(matches!(control.step(&Event::AddressUnavailable(id("hub"))), Action::Abort));
    assert_eq!(control.stage(), Stage::Aborted);
}

#[test]
fn only_the_first_answer_on_an_address_counts() {
    let mut control = star(1, Policy { barrier: false, strict: true });
    assert!(is_hold(&control.step(&Event::AddressPublished(id("hub"), addr(4)))));
    assert!(is_hold(&control.step(&Event::AddressPublished(id("hub"), addr(5)))));
    assert!(is_hold(&control.step(&Event::AddressUnavailable(id("hub")))));
    assert_eq!(control.slot(&id("hub")), Some(AddressSlot::Published(addr(4))));
    match control.step(&Event::AddressPublished(id("s0"), addr(1))) {
        Action::Replay(commands) => assert_eq!(shown(&commands), vec![row("s0", "hub", 4)]),
        _ => panic!("the commands are due"),
    }
}

#[test]
fn events_of_unknown_nodes_change_nothing() {
    let mut control = star(1, Policy { barrier: true, strict: true });
    assert!(is_hold(&control.step(&Event::AddressPublished(id("ghost"), addr(8)))));
    assert!(is_hold(&control.step(&Event::AddressUnavailable(id("ghost")))));
    assert!(is_hold(&control.step(&Event::Ready(id("ghost")))));
    assert_eq!(control.stage(), Stage::Collecting);
    assert_eq!(control.slot(&id("hub")), Some(AddressSlot::Pending));
}

#[test]
fn edges_of_unregistered_nodes_are_left_out() {
    let mut plan: Network<u8> = Network::default();
    let a = plan.node("a", 0);
    let b = plan.node("b", 0);
    plan.connect_each_to(&[id("x"), a.clone()], b.clone());
    plan.connect_to_all(a.clone(), &[id("y")]);
    let (mut control, _) = plan.start(Policy { barrier: false, strict: false });
    control.step(&Event::AddressPublished(a, addr(1)));
    match control.step(&Event::AddressPublished(b, addr(2))) {
        Action::Replay(commands) => assert_eq!(shown(&commands), vec![row("a", "b", 2)]),
        _ => panic!("the commands are due"),
    }
}

#[test]
fn commands_are_released_once() {
    let mut control = star(1, Policy { barrier: true, strict: false });
    control.step(&Event::AddressPublished(id("hub"), addr(0)));
    control.step(&Event::AddressPublished(id("s0"), addr(1)));
    control.step(&Event::Ready(id("s0")));
    assert!(matches!(control.step(&Event::Ready(id("hub"))), Action::Replay(_)));
    assert!(is_hold(&control.step(&Event::Ready(id("hub")))));
    assert!(is_hold(&control.step(&Event::Spawned)));
    assert!(is_hold(&control.step(&Event::AddressUnavailable(id("hub")))));
    assert_eq!(control.stage(), Stage::Joining);
}

#[test]
fn same_plan_and_events_give_the_same_commands() {
    let run = || {
        let mut control = star(3, Policy { barrier: true, strict: false });
        let mut all = Vec::new();
        for name in ["s2", "hub", "s0", "s1"] {
            control.step(&Event::AddressPublished(id(name), addr(name.len() as u32)));
        }
        for name in ["hub", "s1", "s0", "s2"] {
            if let Action::Replay(commands) = control.step(&Event::Ready(id(name))) {
                all = shown(&commands);
            }
        }
        all
    };
    let first = run();
    assert_eq!(first, vec![row("s0", "hub", 3), row("s1", "hub", 3), row("s2", "hub", 3)]);
    assert_eq!(run(), first);
}
