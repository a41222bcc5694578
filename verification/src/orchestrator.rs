//! The control side of a run: it collects what the nodes publish and decides
//! when the dial commands are released.
use vstd::prelude::*;
use crate::id::{names_of, NodeId, RunAddress};
use crate::report::{fold, pairs_of, Report};

verus! {

/// How a run is coordinated.
///
/// With `barrier` set, no dial command is released before every node has
/// signalled that it is running. A node that never publishes an address can
/// never get that far, so with the barrier its loss ends the run. Without the
/// barrier the loss of an address ends the run only if `strict` is set;
/// otherwise the edges that lead to that node are left out.
#[derive(Clone, Copy, Debug, PartialEq, Eq, Structural)]
pub struct Policy {
    pub barrier: bool,
    pub strict: bool,
}

/// What is known of a node's address.
#[derive(Clone, Copy, Debug, PartialEq, Eq, Structural)]
pub enum AddressSlot {
    /// Nothing was heard yet.
    Pending,
    /// The node published this address.
    Published(RunAddress),
    /// The node went away without publishing an address.
    Unavailable,
}

/// How far the control side has come.
#[derive(Clone, Copy, Debug, PartialEq, Eq, Structural)]
pub enum Stage {
    /// Addresses, and with the barrier readiness signals, are being collected.
    Collecting,
    /// The dial commands were released and the request channels closed; the
    /// run is being joined.
    Joining,
    /// The run was given up.
    Aborted,
}

/// Something the control side is told.
#[derive(Debug)]
pub enum Event {
    /// Every execution context has been launched.
    Spawned,
    /// A node published its address.
    AddressPublished(NodeId, RunAddress),
    /// A node's address channel closed without an address.
    AddressUnavailable(NodeId),
    /// A node signalled that it is running.
    Ready(NodeId),
}

/// An event over names.
pub enum EventView {
    Spawned,
    AddressPublished(Seq<char>, RunAddress),
    AddressUnavailable(Seq<char>),
    Ready(Seq<char>),
}

impl View for Event {
    type V = EventView;

    open spec fn view(&self) -> EventView {
        match *self {
            Event::Spawned => EventView::Spawned,
            Event::AddressPublished(id, a) => EventView::AddressPublished(id@, a),
            Event::AddressUnavailable(id) => EventView::AddressUnavailable(id@),
            Event::Ready(id) => EventView::Ready(id@),
        }
    }
}

/// The command to one node to dial another: `address` is what `target`
/// published, and it goes to the request channel of `dialer`.
#[derive(Debug)]
pub struct DialCommand {
    pub dialer: NodeId,
    pub target: NodeId,
    pub address: RunAddress,
}

/// A dial command over names.
pub struct Dial {
    pub dialer: Seq<char>,
    pub target: Seq<char>,
    pub address: RunAddress,
}

impl View for DialCommand {
    type V = Dial;

    open spec fn view(&self) -> Dial {
        Dial { dialer: self.dialer@, target: self.target@, address: self.address }
    }
}

/// The commands of a list, each over names.
pub open spec fn dials_of(commands: Seq<DialCommand>) -> Seq<Dial> {
    commands.map_values(|c: DialCommand| c@)
}

/// What the control side has to do after an event.
#[derive(Debug)]
pub enum Action {
    /// Nothing yet: go on listening.
    Hold,
    /// Send these commands in this order, each to its dialer, then close
    /// every request channel and join the run.
    Replay(Vec<DialCommand>),
    /// Give the run up.
    Abort,
}

/// An action over names.
pub enum ActionView {
    Hold,
    Replay(Seq<Dial>),
    Abort,
}

impl View for Action {
    type V = ActionView;

    open spec fn view(&self) -> ActionView {
        match *self {
            Action::Hold => ActionView::Hold,
            Action::Replay(commands) => ActionView::Replay(dials_of(commands@)),
            Action::Abort => ActionView::Abort,
        }
    }
}

/// The edges of a list as pairs of names, dialer first.
pub open spec fn edges_of(edges: Seq<(NodeId, NodeId)>) -> Seq<(Seq<char>, Seq<char>)> {
    edges.map_values(|e: (NodeId, NodeId)| (e.0@, e.1@))
}

/// The state of the control side over names.
pub struct Control {
    /// The registered names.
    pub ids: Seq<Seq<char>>,
    /// The declared edges, dialer first, in the order of declaration.
    pub edges: Seq<(Seq<char>, Seq<char>)>,
    pub policy: Policy,
    /// What is known of each node's address, by the node's position in `ids`.
    pub slots: Seq<AddressSlot>,
    /// Which nodes have signalled that they are running.
    pub ready: Seq<bool>,
    pub stage: Stage,
}

impl Control {
    /// One slot and one readiness flag per node, and no name twice.
    pub open spec fn wf(self) -> bool {
        &&& self.ids.no_duplicates()
        &&& self.slots.len() == self.ids.len()
        &&& self.ready.len() == self.ids.len()
    }
}

/// The state in which a run starts: nothing is known of any node.
pub open spec fn initial(
    ids: Seq<Seq<char>>,
    edges: Seq<(Seq<char>, Seq<char>)>,
    policy: Policy,
) -> Control {
    Control {
        ids,
        edges,
        policy,
        slots: Seq::new(ids.len(), |i: int| AddressSlot::Pending),
        ready: Seq::new(ids.len(), |i: int| false),
        stage: Stage::Collecting,
    }
}

/// The address that the node of this name published, if it is registered and
/// has published one.
pub open spec fn address_of(ids: Seq<Seq<char>>, slots: Seq<AddressSlot>, name: Seq<char>) -> Option<
    RunAddress,
> {
    if ids.contains(name) {
        match slots[ids.index_of(name)] {
            AddressSlot::Published(a) => Some(a),
            _ => None,
        }
    } else {
        None
    }
}

/// The command that an edge gives rise to: none if its dialer is not
/// registered or the address of its target is not known.
pub open spec fn resolve(ids: Seq<Seq<char>>, slots: Seq<AddressSlot>, edge: (Seq<char>, Seq<char>)) -> Option<
    Dial,
> {
    if ids.contains(edge.0) {
        match address_of(ids, slots, edge.1) {
            Some(a) => Some(Dial { dialer: edge.0, target: edge.1, address: a }),
            None => None,
        }
    } else {
        None
    }
}

/// `resolve` for fixed nodes and addresses, as a function of the edge.
pub open spec fn resolver(ids: Seq<Seq<char>>, slots: Seq<AddressSlot>) -> spec_fn(
    (Seq<char>, Seq<char>),
) -> Option<Dial> {
    |edge: (Seq<char>, Seq<char>)| resolve(ids, slots, edge)
}

/// The dial commands of a run: the commands of the edges that give rise to
/// one, in the order in which the edges were declared.
pub open spec fn replay(
    ids: Seq<Seq<char>>,
    slots: Seq<AddressSlot>,
    edges: Seq<(Seq<char>, Seq<char>)>,
) -> Seq<Dial> {
    edges.filter_map(resolver(ids, slots))
}

/// The state after taking note of an event. Only the first answer on a
/// node's address counts, and what is said of an unknown name changes
/// nothing.
pub open spec fn record(c: Control, e: EventView) -> Control {
    match e {
        EventView::Spawned => c,
        EventView::AddressPublished(name, a) => if c.ids.contains(name) && c.slots[c.ids.index_of(
            name,
        )] == AddressSlot::Pending {
            Control { slots: c.slots.update(c.ids.index_of(name), AddressSlot::Published(a)), ..c }
        } else {
            c
        },
        EventView::AddressUnavailable(name) => if c.ids.contains(name) && c.slots[c.ids.index_of(
            name,
        )] == AddressSlot::Pending {
            Control { slots: c.slots.update(c.ids.index_of(name), AddressSlot::Unavailable), ..c }
        } else {
            c
        },
        EventView::Ready(name) => if c.ids.contains(name) {
            Control { ready: c.ready.update(c.ids.index_of(name), true), ..c }
        } else {
            c
        },
    }
}

/// The event is the loss of a node's address, and under the policy that
/// ends the run.
pub open spec fn fatal(c: Control, e: EventView) -> bool {
    match e {
        EventView::AddressUnavailable(name) => c.ids.contains(name) && c.slots[c.ids.index_of(
            name,
        )] == AddressSlot::Pending && (c.policy.barrier || c.policy.strict),
        _ => false,
    }
}

/// Every node's address is answered.
pub open spec fn all_answered(slots: Seq<AddressSlot>) -> bool {
    forall|i: int| 0 <= i < slots.len() ==> #[trigger] slots[i] != AddressSlot::Pending
}

/// Every node has signalled that it is running.
pub open spec fn all_ready(ready: Seq<bool>) -> bool {
    forall|i: int| 0 <= i < ready.len() ==> #[trigger] ready[i]
}

/// Nothing is waited for any more: the dial commands can be released.
pub open spec fn settled(c: Control) -> bool {
    all_answered(c.slots) && (c.policy.barrier ==> all_ready(c.ready))
}

/// The step of the control side: the state after an event, and what to do.
///
/// Once the commands are released or the run is given up, nothing changes
/// any more. Until then the event is recorded; the run is given up if the
/// event is fatal, and the commands are released as soon as nothing is
/// waited for.
pub open spec fn next(c: Control, e: EventView) -> (Control, ActionView) {
    if c.stage != Stage::Collecting {
        (c, ActionView::Hold)
    } else if fatal(c, e) {
        (Control { stage: Stage::Aborted, ..record(c, e) }, ActionView::Abort)
    } else {
        let r = record(c, e);
        if settled(r) {
            (Control { stage: Stage::Joining, ..r }, ActionView::Replay(replay(r.ids, r.slots, r.edges)))
        } else {
            (r, ActionView::Hold)
        }
    }
}

/// The control side of one run.
#[derive(Debug)]
pub struct Orchestrator {
    ids: Vec<NodeId>,
    edges: Vec<(NodeId, NodeId)>,
    policy: Policy,
    slots: Vec<AddressSlot>,
    ready: Vec<bool>,
    stage: Stage,
}

impl View for Orchestrator {
    type V = Control;

    closed spec fn view(&self) -> Control {
        Control {
            ids: names_of(self.ids@),
            edges: edges_of(self.edges@),
            policy: self.policy,
            slots: self.slots@,
            ready: self.ready@,
            stage: self.stage,
        }
    }
}

impl Orchestrator {
    /// The control side for the given nodes and edges, before anything is
    /// known of any node.
    pub(crate) fn new(ids: Vec<NodeId>, edges: Vec<(NodeId, NodeId)>, policy: Policy) -> (o:
        Orchestrator)
        requires
            names_of(ids@).no_duplicates(),
        ensures
            o@.wf(),
            o@ == initial(names_of(ids@), edges_of(edges@), policy),
    {
        let mut slots: Vec<AddressSlot> = Vec::new();
        let mut ready: Vec<bool> = Vec::new();
        let mut i: usize = 0;
        while i < ids.len()
            invariant
                i <= ids.len(),
                slots@ == Seq::new(i as nat, |k: int| AddressSlot::Pending),
                ready@ == Seq::new(i as nat, |k: int| false),
            decreases ids.len() - i,
        {
            slots.push(AddressSlot::Pending);
            ready.push(false);
            i += 1;
            assert(slots@ =~= Seq::new(i as nat, |k: int| AddressSlot::Pending));
            assert(ready@ =~= Seq::new(i as nat, |k: int| false));
        }
        Orchestrator { ids, edges, policy, slots, ready, stage: Stage::Collecting }
    }

    /// How far the control side has come.
    pub fn stage(&self) -> (stage: Stage)
        ensures
            stage == self@.stage,
    {
        self.stage
    }

    /// The policy of the run.
    pub fn policy(&self) -> (policy: Policy)
        ensures
            policy == self@.policy,
    {
        self.policy
    }

    /// The position of a name among the registered nodes.
    fn position(&self, id: &NodeId) -> (at: Option<usize>)
        requires
            self@.wf(),
        ensures
            at.is_some() == self@.ids.contains(id@),
            at.is_some() ==> at.unwrap() == self@.ids.index_of(id@) && at.unwrap() < self@.ids.len(),
    {
        let mut i: usize = 0;
        while i < self.ids.len()
            invariant
                i <= self.ids.len(),
                self@.wf(),
                forall|k: int| 0 <= k < i ==> self@.ids[k] != id@,
            decreases self.ids.len() - i,
        {
            if self.ids[i] == *id {
                proof {
                    let names = self@.ids;
                    assert(names[i as int] == id@);
                    let j = names.index_of(id@);
                    assert(0 <= j < names.len() && names[j] == id@);
                }
                return Some(i);
            }
            i += 1;
        }
        None
    }

    /// What is known of the address of a node, if the name is registered.
    pub fn slot(&self, id: &NodeId) -> (slot: Option<AddressSlot>)
        requires
            self@.wf(),
        ensures
            slot == if self@.ids.contains(id@) {
                Some(self@.slots[self@.ids.index_of(id@)])
            } else {
                None
            },
    {
        match self.position(id) {
            Some(i) => Some(self.slots[i]),
            None => None,
        }
    }

    /// Whether nothing is waited for any more.
    fn is_settled(&self) -> (yes: bool)
        requires
            self@.wf(),
        ensures
            yes == settled(self@),
    {
        let mut i: usize = 0;
        while i < self.slots.len()
            invariant
                i <= self.slots.len(),
                self@.wf(),
                forall|k: int| 0 <= k < i ==> #[trigger] self@.slots[k] != AddressSlot::Pending,
                self@.policy.barrier ==> forall|k: int| 0 <= k < i ==> #[trigger] self@.ready[k],
            decreases self.slots.len() - i,
        {
            match self.slots[i] {
                AddressSlot::Pending => {
                    assert(self@.slots[i as int] == AddressSlot::Pending);
                    return false;
                },
                _ => {},
            }
            if self.policy.barrier && !self.ready[i] {
                assert(!self@.ready[i as int]);
                return false;
            }
            i += 1;
        }
        true
    }

    /// The dial commands of the declared edges, in the order of declaration.
    fn replay(&self) -> (commands: Vec<DialCommand>)
        requires
            self@.wf(),
        ensures
            dials_of(commands@) == replay(self@.ids, self@.slots, self@.edges),
    {
        let mut commands: Vec<DialCommand> = Vec::new();
        let mut k: usize = 0;
        assert(self@.edges.take(0).filter_map(resolver(self@.ids, self@.slots)) =~= Seq::<
            Dial,
        >::empty());
        while k < self.edges.len()
            invariant
                k <= self.edges.len(),
                self@.wf(),
                self.edges.len() == self@.edges.len(),
                dials_of(commands@) =~= replay(self@.ids, self@.slots, self@.edges.take(k as int)),
            decreases self.edges.len() - k,
        {
            proof {
                self@.edges.lemma_filter_map_take_succ(resolver(self@.ids, self@.slots), k as int);
            }
            let dialer = &self.edges[k].0;
            let target = &self.edges[k].1;
            assert(self@.edges[k as int] == (dialer@, target@));
            if self.position(dialer).is_some() {
                match self.position(target) {
                    Some(t) => {
                        match self.slots[t] {
                            AddressSlot::Published(address) => {
                                commands.push(
                                    DialCommand {
                                        dialer: dialer.clone(),
                                        target: target.clone(),
                                        address,
                                    },
                                );
                                assert(dials_of(commands@) =~= replay(
                                    self@.ids,
                                    self@.slots,
                                    self@.edges.take(k as int),
                                ) + seq![
                                    Dial { dialer: dialer@, target: target@, address: address },
                                ]);
                            },
                            _ => {},
                        }
                    },
                    None => {},
                }
            }
            k += 1;
        }
        assert(self@.edges.take(k as int) =~= self@.edges);
        commands
    }

    /// Tells the control side of an event and returns what it has to do.
    pub fn step(&mut self, event: &Event) -> (action: Action)
        requires
            old(self)@.wf(),
        ensures
            final(self)@.wf(),
            (final(self)@, action@) == next(old(self)@, event@),
    {
        match self.stage {
            Stage::Collecting => {},
            _ => {
                return Action::Hold;
            },
        }
        let mut lost = false;
        match event {
            Event::Spawned => {},
            Event::AddressPublished(id, address) => {
                match self.position(id) {
                    Some(i) => {
                        match self.slots[i] {
                            AddressSlot::Pending => {
                                self.slots.set(i, AddressSlot::Published(*address));
                            },
                            _ => {},
                        }
                    },
                    None => {},
                }
            },
            Event::AddressUnavailable(id) => {
                match self.position(id) {
                    Some(i) => {
                        match self.slots[i] {
                            AddressSlot::Pending => {
                                self.slots.set(i, AddressSlot::Unavailable);
                                lost = true;
                            },
                            _ => {},
                        }
                    },
                    None => {},
                }
            },
            Event::Ready(id) => {
                match self.position(id) {
                    Some(i) => {
                        self.ready.set(i, true);
                    },
                    None => {},
                }
            },
        }
        assert(self@ == record(old(self)@, event@));
        if lost && (self.policy.barrier || self.policy.strict) {
            self.stage = Stage::Aborted;
            return Action::Abort;
        }
        if self.is_settled() {
            let commands = self.replay();
            self.stage = Stage::Joining;
            Action::Replay(commands)
        } else {
            Action::Hold
        }
    }

    /// Closes the run with the outcomes that the joined contexts handed
    /// back. There is a report only if the commands were released and every
    /// registered node handed back exactly one outcome, and nobody else did:
    /// the report then has one entry for each registered node. Otherwise the
    /// run has failed as a whole, and nothing is returned.
    pub fn conclude<R>(&self, outcomes: Vec<(NodeId, R)>) -> (report: Option<Report<R>>)
        requires
            self@.wf(),
        ensures
            report.is_some() == (self@.stage == Stage::Joining && outcomes@.len() == self@.ids.len()
                && fold(pairs_of(outcomes@)).dom() == self@.ids.to_set()),
            report.is_some() ==> report.unwrap().wf() && report.unwrap()@ == fold(
                pairs_of(outcomes@),
            ) && report.unwrap()@.dom().finite() && report.unwrap()@.dom().len()
                == self@.ids.len(),
    {
        let n = outcomes.len();
        let ghost all = fold(pairs_of(outcomes@));
        let report = Report::collect(outcomes);
        proof {
            self@.ids.unique_seq_to_set();
            vstd::seq_lib::seq_to_set_is_finite(self@.ids);
        }
        match self.stage {
            Stage::Joining => {},
            _ => {
                return None;
            },
        }
        if n != self.ids.len() || report.len() != n {
            return None;
        }
        let mut i: usize = 0;
        while i < self.ids.len()
            invariant
                i <= self.ids.len(),
                report@ == all,
                all == fold(pairs_of(outcomes@)),
                forall|k: int| 0 <= k < i ==> report@.contains_key(#[trigger] self@.ids[k]),
            decreases self.ids.len() - i,
        {
            if !report.contains(&self.ids[i]) {
                assert(self@.ids.to_set().contains(self@.ids[i as int]));
                assert(!all.dom().contains(self@.ids[i as int]));
                return None;
            }
            i += 1;
        }
        proof {
            let names = self@.ids.to_set();
            assert forall|name: Seq<char>| names.contains(name) implies report@.dom().contains(
                name,
            ) by {
                let k = choose|k: int| 0 <= k < self@.ids.len() && self@.ids[k] == name;
                assert(report@.contains_key(self@.ids[k]));
            }
            vstd::set_lib::lemma_subset_equality(names, report@.dom());
        }
        Some(report)
    }
}

/// The edges that end at `target`.
pub open spec fn ends_at(target: Seq<char>) -> spec_fn((Seq<char>, Seq<char>)) -> bool {
    |edge: (Seq<char>, Seq<char>)| edge.1 == target
}

/// The commands that dial `target`.
pub open spec fn dials_to(target: Seq<char>) -> spec_fn(Dial) -> bool {
    |d: Dial| d.target == target
}

/// The edges that start at `dialer`.
pub open spec fn starts_at(dialer: Seq<char>) -> spec_fn((Seq<char>, Seq<char>)) -> bool {
    |edge: (Seq<char>, Seq<char>)| edge.0 == dialer
}

/// The commands that go to `dialer`.
pub open spec fn sent_to(dialer: Seq<char>) -> spec_fn(Dial) -> bool {
    |d: Dial| d.dialer == dialer
}

proof fn lemma_replay_filter(
    ids: Seq<Seq<char>>,
    slots: Seq<AddressSlot>,
    edges: Seq<(Seq<char>, Seq<char>)>,
    keep_edge: spec_fn((Seq<char>, Seq<char>)) -> bool,
    keep_dial: spec_fn(Dial) -> bool,
)
    requires
        forall|e: (Seq<char>, Seq<char>)| #[trigger]
            resolve(ids, slots, e).is_some() ==> keep_dial(resolve(ids, slots, e).unwrap())
                == keep_edge(e),
    ensures
        replay(ids, slots, edges).filter(keep_dial) == replay(ids, slots, edges.filter(keep_edge)),
    decreases edges.len(),
{
    reveal(Seq::filter);
    let f = resolver(ids, slots);
    if edges.len() > 0 {
        let rest = edges.drop_last();
        let last = edges.last();
        lemma_replay_filter(ids, slots, rest, keep_edge, keep_dial);
        let kept = rest.filter(keep_edge);
        if keep_edge(last) {
            assert(edges.filter(keep_edge) == kept.push(last));
            assert(kept.push(last).drop_last() =~= kept);
            assert(kept.push(last).last() == last);
        }
        match resolve(ids, slots, last) {
            Some(d) => {
                assert(f(last) == Some(d));
                assert(replay(ids, slots, edges) == replay(ids, slots, rest) + seq![d]);
                Seq::filter_distributes_over_add(replay(ids, slots, rest), seq![d], keep_dial);
                assert(seq![d].drop_last() =~= Seq::<Dial>::empty());
                assert(seq![d].last() == d);
                assert(Seq::<Dial>::empty().filter(keep_dial) =~= Seq::<Dial>::empty());
                if keep_dial(d) {
                    assert(seq![d].filter(keep_dial) =~= seq![d]);
                } else {
                    assert(seq![d].filter(keep_dial) =~= Seq::<Dial>::empty());
                    assert(replay(ids, slots, edges).filter(keep_dial) =~= replay(
                        ids,
                        slots,
                        rest,
                    ).filter(keep_dial));
                }
            },
            None => {
                assert(f(last).is_none());
            },
        }
    } else {
        assert(edges.filter(keep_edge) =~= edges);
        assert(replay(ids, slots, edges) =~= Seq::<Dial>::empty());
    }
}

/// Replay keeps the order of declaration for every target: the commands
/// that dial `target`, in the order in which they are released, are the
/// commands of the edges that end at `target`, in the order in which those
/// edges were declared.
pub proof fn lemma_replay_order_per_target(
    ids: Seq<Seq<char>>,
    slots: Seq<AddressSlot>,
    edges: Seq<(Seq<char>, Seq<char>)>,
    target: Seq<char>,
)
    ensures
        replay(ids, slots, edges).filter(dials_to(target)) == replay(
            ids,
            slots,
            edges.filter(ends_at(target)),
        ),
{
    lemma_replay_filter(ids, slots, edges, ends_at(target), dials_to(target));
}

/// Replay keeps the order of declaration for every dialer: the commands
/// that go to the request channel of `dialer` are the commands of the edges
/// that start at `dialer`, in the order in which those edges were declared.
pub proof fn lemma_replay_order_per_dialer(
    ids: Seq<Seq<char>>,
    slots: Seq<AddressSlot>,
    edges: Seq<(Seq<char>, Seq<char>)>,
    dialer: Seq<char>,
)
    ensures
        replay(ids, slots, edges).filter(sent_to(dialer)) == replay(
            ids,
            slots,
            edges.filter(starts_at(dialer)),
        ),
{
    lemma_replay_filter(ids, slots, edges, starts_at(dialer), sent_to(dialer));
}

/// Every released command stems from a declared edge whose dialer is
/// registered, and carries the address that its target published.
pub proof fn lemma_replay_sound(
    ids: Seq<Seq<char>>,
    slots: Seq<AddressSlot>,
    edges: Seq<(Seq<char>, Seq<char>)>,
    d: Dial,
)
    requires
        replay(ids, slots, edges).contains(d),
    ensures
        edges.contains((d.dialer, d.target)),
        ids.contains(d.dialer),
        address_of(ids, slots, d.target) == Some(d.address),
{
    let f = resolver(ids, slots);
    edges.lemma_filter_map_contains(f, d);
    let e = choose|e: (Seq<char>, Seq<char>)| #[trigger] edges.contains(e) && f(e) == Some(d);
    assert(resolve(ids, slots, e) == Some(d));
    assert(e == (d.dialer, d.target));
}

/// Where every edge joins registered nodes and the address of every target
/// is known, each edge gives one command: the commands are as many as the
/// edges, and the command at each position is that of the edge at the same
/// position.
pub proof fn lemma_replay_complete(
    ids: Seq<Seq<char>>,
    slots: Seq<AddressSlot>,
    edges: Seq<(Seq<char>, Seq<char>)>,
)
    requires
        forall|k: int| 0 <= k < edges.len() ==> #[trigger] resolve(ids, slots, edges[k]).is_some(),
    ensures
        replay(ids, slots, edges).len() == edges.len(),
        forall|k: int|
            0 <= k < edges.len() ==> Some(#[trigger] replay(ids, slots, edges)[k]) == resolve(
                ids,
                slots,
                edges[k],
            ),
    decreases edges.len(),
{
    let f = resolver(ids, slots);
    if edges.len() > 0 {
        let rest = edges.drop_last();
        let last = edges.last();
        assert forall|k: int| 0 <= k < rest.len() implies #[trigger] resolve(
            ids,
            slots,
            rest[k],
        ).is_some() by {
            assert(rest[k] == edges[k]);
        }
        lemma_replay_complete(ids, slots, rest);
        assert(resolve(ids, slots, edges[edges.len() - 1]).is_some());
        let d = resolve(ids, slots, last).unwrap();
        assert(f(last) == Some(d));
        assert(replay(ids, slots, edges) == replay(ids, slots, rest) + seq![d]);
        assert forall|k: int| 0 <= k < edges.len() implies Some(
            #[trigger] replay(ids, slots, edges)[k],
        ) == resolve(ids, slots, edges[k]) by {
            if k < rest.len() {
                assert(rest[k] == edges[k]);
                assert(replay(ids, slots, edges)[k] == replay(ids, slots, rest)[k]);
            }
        }
    }
}

/// The state after a list of events, taken one after the other.
pub open spec fn run(c: Control, events: Seq<EventView>) -> Control
    decreases events.len(),
{
    if events.len() == 0 {
        c
    } else {
        next(run(c, events.drop_last()), events.last()).0
    }
}

/// A step keeps the plan and the policy, and a valid state valid.
pub proof fn lemma_next_keeps_plan(c: Control, e: EventView)
    requires
        c.wf(),
    ensures
        next(c, e).0.wf(),
        next(c, e).0.ids == c.ids,
        next(c, e).0.edges == c.edges,
        next(c, e).0.policy == c.policy,
{
}

/// A run keeps the plan and the policy, and a valid state valid.
pub proof fn lemma_run_keeps_plan(c: Control, events: Seq<EventView>)
    requires
        c.wf(),
    ensures
        run(c, events).wf(),
        run(c, events).ids == c.ids,
        run(c, events).edges == c.edges,
        run(c, events).policy == c.policy,
    decreases events.len(),
{
    if events.len() > 0 {
        lemma_run_keeps_plan(c, events.drop_last());
        lemma_next_keeps_plan(run(c, events.drop_last()), events.last());
    }
}

/// A node counts as ready only once its readiness signal has come in: if
/// node `i` was not ready before the events and is ready after them, one of
/// the events is its signal.
pub proof fn lemma_ready_was_signalled(c: Control, events: Seq<EventView>, i: int)
    requires
        c.wf(),
        0 <= i < c.ids.len(),
        !c.ready[i],
        run(c, events).ready[i],
    ensures
        exists|j: int| 0 <= j < events.len() && #[trigger] events[j] == EventView::Ready(c.ids[i]),
    decreases events.len(),
{
    if events.len() > 0 {
        let rest = events.drop_last();
        let before = run(c, rest);
        lemma_run_keeps_plan(c, rest);
        if before.ready[i] {
            lemma_ready_was_signalled(c, rest, i);
            let j = choose|j: int| 0 <= j < rest.len() && #[trigger] rest[j] == EventView::Ready(
                c.ids[i],
            );
            assert(events[j] == EventView::Ready(c.ids[i]));
        } else {
            let e = events.last();
            assert(record(before, e).ready[i]);
            match e {
                EventView::Ready(name) => {
                    let at = before.ids.index_of(name);
                    assert(before.ids.contains(name));
                    assert(at == i);
                    assert(events[events.len() - 1] == EventView::Ready(c.ids[i]));
                },
                _ => {},
            }
        }
    }
}

/// The barrier holds: in a run with the barrier that starts with no node
/// ready, if the last of the events releases the dial commands, then every
/// node's readiness signal is among the events. So no command is released
/// before every node has signalled that it is running.
pub proof fn lemma_barrier_holds(c: Control, events: Seq<EventView>, i: int)
    requires
        c.wf(),
        c.policy.barrier,
        forall|k: int| 0 <= k < c.ready.len() ==> !#[trigger] c.ready[k],
        events.len() > 0,
        next(run(c, events.drop_last()), events.last()).1 is Replay,
        0 <= i < c.ids.len(),
    ensures
        exists|j: int| 0 <= j < events.len() && #[trigger] events[j] == EventView::Ready(c.ids[i]),
{
    let before = run(c, events.drop_last());
    lemma_run_keeps_plan(c, events.drop_last());
    lemma_next_keeps_plan(before, events.last());
    let after = run(c, events);
    assert(after == next(before, events.last()).0);
    assert(settled(record(before, events.last())));
    assert(after.ready == record(before, events.last()).ready);
    assert(after.ready[i]);
    lemma_ready_was_signalled(c, events, i);
}

/// The commands are released at most once: after a release, and after the
/// run was given up, every further event is answered with `Hold`.
pub proof fn lemma_release_is_final(c: Control, e: EventView, later: EventView)
    ensures
        !(next(c, e).1 is Hold) ==> next(next(c, e).0, later) == (next(c, e).0, ActionView::Hold),
{
}

/// The events of a run agree with a book of addresses: a registered node
/// publishes the address that the book holds for it, and none is lost.
pub open spec fn agree(ids: Seq<Seq<char>>, book: Seq<RunAddress>, events: Seq<EventView>) -> bool {
    forall|j: int|
        0 <= j < events.len() ==> match #[trigger] events[j] {
            EventView::AddressPublished(name, a) => ids.contains(name) ==> book[ids.index_of(name)]
                == a,
            EventView::AddressUnavailable(name) => !ids.contains(name),
            _ => true,
        }
}

/// The slots in which every node has published the address of the book.
pub open spec fn published(book: Seq<RunAddress>) -> Seq<AddressSlot> {
    Seq::new(book.len(), |i: int| AddressSlot::Published(book[i]))
}

proof fn lemma_slots_follow_book(c: Control, book: Seq<RunAddress>, events: Seq<EventView>, i: int)
    requires
        c.wf(),
        book.len() == c.ids.len(),
        agree(c.ids, book, events),
        0 <= i < c.ids.len(),
        c.slots[i] == AddressSlot::Pending,
    ensures
        run(c, events).slots[i] == AddressSlot::Pending || run(c, events).slots[i]
            == AddressSlot::Published(book[i]),
    decreases events.len(),
{
    if events.len() > 0 {
        let rest = events.drop_last();
        assert forall|j: int| 0 <= j < rest.len() implies match #[trigger] rest[j] {
            EventView::AddressPublished(name, a) => c.ids.contains(name) ==> book[c.ids.index_of(
                name,
            )] == a,
            EventView::AddressUnavailable(name) => !c.ids.contains(name),
            _ => true,
        } by {
            assert(rest[j] == events[j]);
        }
        lemma_slots_follow_book(c, book, rest, i);
        lemma_run_keeps_plan(c, rest);
        let e = events[events.len() - 1];
        assert(e == events.last());
    }
}

/// The released commands do not depend on the order of the events: in a
/// run that starts with no address known and in which no address is lost,
/// whenever the commands are released they are the commands of the
/// declared edges over the addresses that the nodes publish.
pub proof fn lemma_release_is_determined(c: Control, book: Seq<RunAddress>, events: Seq<EventView>)
    requires
        c.wf(),
        book.len() == c.ids.len(),
        forall|i: int| 0 <= i < c.slots.len() ==> #[trigger] c.slots[i] == AddressSlot::Pending,
        agree(c.ids, book, events),
        events.len() > 0,
        next(run(c, events.drop_last()), events.last()).1 is Replay,
    ensures
        next(run(c, events.drop_last()), events.last()).1 == ActionView::Replay(
            replay(c.ids, published(book), c.edges),
        ),
{
    let before = run(c, events.drop_last());
    lemma_run_keeps_plan(c, events.drop_last());
    lemma_next_keeps_plan(before, events.last());
    let after = run(c, events);
    assert(after == next(before, events.last()).0);
    assert(after.slots == record(before, events.last()).slots);
    assert(all_answered(after.slots));
    assert forall|i: int| 0 <= i < after.slots.len() implies after.slots[i] == published(book)[i] by {
        lemma_slots_follow_book(c, book, events, i);
    }
    assert(after.slots =~= published(book));
}

/// One of the events is the address of the node of this name.
pub open spec fn published_in(events: Seq<EventView>, name: Seq<char>) -> bool {
    exists|j: int|
        0 <= j < events.len() && (#[trigger] events[j]) is AddressPublished
            && events[j]->AddressPublished_0 == name
}

/// One of the events is the readiness signal of the node of this name.
pub open spec fn signalled_in(events: Seq<EventView>, name: Seq<char>) -> bool {
    exists|j: int| 0 <= j < events.len() && #[trigger] events[j] == EventView::Ready(name)
}

/// None of the events is the loss of an address.
pub open spec fn none_lost(events: Seq<EventView>) -> bool {
    forall|j: int| 0 <= j < events.len() ==> !((#[trigger] events[j]) is AddressUnavailable)
}

proof fn lemma_stage_only_leaves_collecting(c: Control, events: Seq<EventView>)
    requires
        run(c, events).stage == Stage::Collecting,
    ensures
        c.stage == Stage::Collecting,
        events.len() > 0 ==> run(c, events.drop_last()).stage == Stage::Collecting && run(c, events)
            == record(run(c, events.drop_last()), events.last()) && !settled(run(c, events)),
    decreases events.len(),
{
    if events.len() > 0 {
        lemma_stage_only_leaves_collecting(c, events.drop_last());
    }
}

proof fn lemma_no_loss_no_abort(c: Control, events: Seq<EventView>)
    requires
        c.stage != Stage::Aborted,
        none_lost(events),
    ensures
        run(c, events).stage != Stage::Aborted,
    decreases events.len(),
{
    if events.len() > 0 {
        let rest = events.drop_last();
        assert forall|j: int| 0 <= j < rest.len() implies !((#[trigger] rest[j])
            is AddressUnavailable) by {
            assert(rest[j] == events[j]);
        }
        lemma_no_loss_no_abort(c, rest);
        assert(events[events.len() - 1] == events.last());
    }
}

proof fn lemma_records_stick(c: Control, events: Seq<EventView>, i: int)
    requires
        c.wf(),
        0 <= i < c.ids.len(),
        run(c, events).stage == Stage::Collecting,
    ensures
        published_in(events, c.ids[i]) ==> run(c, events).slots[i] != AddressSlot::Pending,
        signalled_in(events, c.ids[i]) ==> run(c, events).ready[i],
    decreases events.len(),
{
    if events.len() > 0 {
        let rest = events.drop_last();
        let last = events.last();
        let before = run(c, rest);
        lemma_stage_only_leaves_collecting(c, events);
        lemma_run_keeps_plan(c, rest);
        lemma_records_stick(c, rest, i);
        assert(before.ids.index_of(c.ids[i]) == i) by {
            let at = before.ids.index_of(c.ids[i]);
            assert(before.ids[i] == c.ids[i]);
            assert(0 <= at < before.ids.len() && before.ids[at] == c.ids[i]);
        }
        if published_in(events, c.ids[i]) {
            let j = choose|j: int|
                0 <= j < events.len() && (#[trigger] events[j]) is AddressPublished
                    && events[j]->AddressPublished_0 == c.ids[i];
            if j < rest.len() {
                assert(rest[j] == events[j]);
                assert(published_in(rest, c.ids[i]));
            } else {
                assert(last == events[j]);
            }
        }
        if signalled_in(events, c.ids[i]) {
            let j = choose|j: int|
                0 <= j < events.len() && #[trigger] events[j] == EventView::Ready(c.ids[i]);
            if j < rest.len() {
                assert(rest[j] == events[j]);
                assert(signalled_in(rest, c.ids[i]));
            } else {
                assert(last == events[j]);
            }
        }
    }
}

/// The release is owed: in a run that starts in the collecting stage, once
/// every node has published its address and, with the barrier, signalled
/// readiness, and no address was lost, the commands have been released and
/// the run is being joined, whatever the order of the events.
pub proof fn lemma_release_is_owed(c: Control, events: Seq<EventView>)
    requires
        c.wf(),
        c.stage == Stage::Collecting,
        events.len() > 0,
        none_lost(events),
        forall|i: int| 0 <= i < c.ids.len() ==> published_in(events, #[trigger] c.ids[i]),
        c.policy.barrier ==> forall|i: int|
            0 <= i < c.ids.len() ==> signalled_in(events, #[trigger] c.ids[i]),
    ensures
        run(c, events).stage == Stage::Joining,
{
    lemma_no_loss_no_abort(c, events);
    lemma_run_keeps_plan(c, events);
    let after = run(c, events);
    if after.stage == Stage::Collecting {
        lemma_stage_only_leaves_collecting(c, events);
        assert forall|i: int| 0 <= i < after.slots.len() implies #[trigger] after.slots[i]
            != AddressSlot::Pending by {
            assert(published_in(events, c.ids[i]));
            lemma_records_stick(c, events, i);
        }
        if c.policy.barrier {
            assert forall|i: int| 0 <= i < after.ready.len() implies #[trigger] after.ready[i] by {
                assert(signalled_in(events, c.ids[i]));
                lemma_records_stick(c, events, i);
            }
        }
        assert(settled(after));
    }
}

/// A run is joined only after a release: if a run that starts in the
/// collecting stage stands in the joining stage, one of its events was
/// answered with the commands.
pub proof fn lemma_joining_was_released(c: Control, events: Seq<EventView>)
    requires
        c.stage == Stage::Collecting,
        run(c, events).stage == Stage::Joining,
    ensures
        exists|k: int|
            0 <= k < events.len() && next(#[trigger] run(c, events.take(k)), events[k]).1
                is Replay,
    decreases events.len(),
{
    if events.len() > 0 {
        let rest = events.drop_last();
        let before = run(c, rest);
        if before.stage == Stage::Joining {
            lemma_joining_was_released(c, rest);
            let k = choose|k: int|
                0 <= k < rest.len() && next(#[trigger] run(c, rest.take(k)), rest[k]).1 is Replay;
            assert(rest.take(k) =~= events.take(k));
            assert(rest[k] == events[k]);
        } else {
            let k = events.len() - 1;
            assert(events.take(k) =~= rest);
            assert(events[k] == events.last());
            assert(next(run(c, events.take(k)), events[k]).1 is Replay);
        }
    }
}

} // verus!
