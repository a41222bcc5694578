//! The registry of nodes and the builder of the dial graph.
use vstd::prelude::*;
use crate::id::{names_of, NodeId};
use crate::orchestrator::{edges_of, initial, Orchestrator, Policy};

verus! {

/// A registered node: its identifier and the role it plays in the run.
#[derive(Debug, Clone, PartialEq, Eq)]
pub struct Node<NodeKind> {
    id: NodeId,
    kind: NodeKind,
}

impl<NodeKind> Node<NodeKind> {
    /// The name of the node.
    pub closed spec fn name(&self) -> Seq<char> {
        self.id@
    }

    /// The role of the node.
    pub closed spec fn role(&self) -> NodeKind {
        self.kind
    }

    /// The identifier of the node.
    pub fn id(&self) -> (id: &NodeId)
        ensures
            id@ == self.name(),
    {
        &self.id
    }

    /// The role of the node.
    pub fn kind(&self) -> (kind: &NodeKind)
        ensures
            *kind == self.role(),
    {
        &self.kind
    }

    /// Takes the node apart, for the execution context that runs it.
    pub fn into_parts(self) -> (parts: (NodeId, NodeKind))
        ensures
            parts.0@ == self.name(),
            parts.1 == self.role(),
    {
        (self.id, self.kind)
    }
}

/// The names of a list of nodes, in the order of the list.
pub open spec fn node_names<NodeKind>(nodes: Seq<Node<NodeKind>>) -> Seq<Seq<char>> {
    nodes.map_values(|n: Node<NodeKind>| n.name())
}

/// The roles of a list of nodes, in the order of the list.
pub open spec fn node_roles<NodeKind>(nodes: Seq<Node<NodeKind>>) -> Seq<NodeKind> {
    nodes.map_values(|n: Node<NodeKind>| n.role())
}

/// The dial edges from `from` to each of the first `n` names other than
/// `from` itself, in the order of the list.
pub open spec fn mesh_row(names: Seq<Seq<char>>, from: Seq<char>, n: int) -> Seq<
    (Seq<char>, Seq<char>),
>
    decreases n,
{
    if n <= 0 || n > names.len() {
        Seq::empty()
    } else {
        let rest = mesh_row(names, from, n - 1);
        if names[n - 1] != from {
            rest.push((from, names[n - 1]))
        } else {
            rest
        }
    }
}

/// The rows of the first `m` names, one after the other.
pub open spec fn mesh_rows(names: Seq<Seq<char>>, m: int) -> Seq<(Seq<char>, Seq<char>)>
    decreases m,
{
    if m <= 0 || m > names.len() {
        Seq::empty()
    } else {
        mesh_rows(names, m - 1) + mesh_row(names, names[m - 1], names.len() as int)
    }
}

/// The full mesh over a list of names: every name dials every other name.
/// The edges of the first name come first, and within one dialer the targets
/// keep the order of the list.
pub open spec fn mesh(names: Seq<Seq<char>>) -> Seq<(Seq<char>, Seq<char>)> {
    mesh_rows(names, names.len() as int)
}

/// The dial edges from the name at position `i` to each later one of the
/// first `n` names that differs from it, in the order of the list.
pub open spec fn later_row(names: Seq<Seq<char>>, i: int, n: int) -> Seq<(Seq<char>, Seq<char>)>
    decreases n,
{
    if i < 0 || n <= i + 1 || n > names.len() {
        Seq::empty()
    } else {
        let rest = later_row(names, i, n - 1);
        if names[n - 1] != names[i] {
            rest.push((names[i], names[n - 1]))
        } else {
            rest
        }
    }
}

/// The later rows of the first `m` names, one after the other.
pub open spec fn triangle_rows(names: Seq<Seq<char>>, m: int) -> Seq<(Seq<char>, Seq<char>)>
    decreases m,
{
    if m <= 0 || m > names.len() {
        Seq::empty()
    } else {
        triangle_rows(names, m - 1) + later_row(names, m - 1, names.len() as int)
    }
}

/// The half mesh over a list of names: every name dials every other name
/// that stands later in the list, so that two names are joined once, and
/// the one that stands first dials.
pub open spec fn triangle(names: Seq<Seq<char>>) -> Seq<(Seq<char>, Seq<char>)> {
    triangle_rows(names, names.len() as int)
}

/// The star in which every listed name dials `target`.
pub open spec fn star_in(names: Seq<Seq<char>>, target: Seq<char>) -> Seq<(Seq<char>, Seq<char>)> {
    names.map_values(|from: Seq<char>| (from, target))
}

/// The star in which `from` dials every listed name.
pub open spec fn star_out(from: Seq<char>, names: Seq<Seq<char>>) -> Seq<(Seq<char>, Seq<char>)> {
    names.map_values(|target: Seq<char>| (from, target))
}

/// No edge of the list has the same node at both ends.
pub open spec fn no_loops(edges: Seq<(Seq<char>, Seq<char>)>) -> bool {
    forall|k: int| 0 <= k < edges.len() ==> (#[trigger] edges[k]).0 != edges[k].1
}

/// What a row holds: `(x, y)` is in the row of `from` over the first `n`
/// names exactly when `x` is `from` and `y` is another one of those names.
pub proof fn lemma_mesh_row_contains(
    names: Seq<Seq<char>>,
    from: Seq<char>,
    n: int,
    x: Seq<char>,
    y: Seq<char>,
)
    requires
        0 <= n <= names.len(),
    ensures
        mesh_row(names, from, n).contains((x, y)) <==> (x == from && y != from
            && names.take(n).contains(y)),
    decreases n,
{
    if n > 0 {
        lemma_mesh_row_contains(names, from, n - 1, x, y);
        let rest = mesh_row(names, from, n - 1);
        let last = names[n - 1];
        assert(names.take(n) =~= names.take(n - 1).push(last));
        let head = names.take(n - 1);
        let all = names.take(n);
        if all.contains(y) {
            let j = choose|j: int| 0 <= j < all.len() && all[j] == y;
            if j < n - 1 {
                assert(head[j] == y);
            }
        }
        if head.contains(y) {
            let j = choose|j: int| 0 <= j < head.len() && head[j] == y;
            assert(all[j] == y);
        }
        assert(all[n - 1] == last);
        if last != from {
            let row = rest.push((from, last));
            assert(row[row.len() - 1] == (from, last));
            if rest.contains((x, y)) {
                let k = choose|k: int| 0 <= k < rest.len() && rest[k] == (x, y);
                assert(row[k] == (x, y));
            }
        }
    } else {
        assert(names.take(0).len() == 0);
    }
}

/// What a full mesh holds: `(x, y)` is an edge of the mesh exactly when `x`
/// and `y` are two different names of the list.
pub proof fn lemma_mesh_contains(names: Seq<Seq<char>>, x: Seq<char>, y: Seq<char>)
    ensures
        mesh(names).contains((x, y)) <==> (names.contains(x) && names.contains(y) && x != y),
{
    lemma_mesh_rows_contains(names, names.len() as int, x, y);
    assert(names.take(names.len() as int) =~= names);
}

proof fn lemma_mesh_rows_contains(names: Seq<Seq<char>>, m: int, x: Seq<char>, y: Seq<char>)
    requires
        0 <= m <= names.len(),
    ensures
        mesh_rows(names, m).contains((x, y)) <==> (names.take(m).contains(x) && names.contains(y)
            && x != y),
    decreases m,
{
    broadcast use vstd::seq_lib::lemma_seq_concat_contains_all_elements;

    if m > 0 {
        lemma_mesh_rows_contains(names, m - 1, x, y);
        let last = names[m - 1];
        lemma_mesh_row_contains(names, last, names.len() as int, x, y);
        assert(names.take(names.len() as int) =~= names);
        assert(names.take(m) =~= names.take(m - 1).push(last));
        let head = names.take(m - 1);
        let all = names.take(m);
        assert(all[m - 1] == last);
        if all.contains(x) {
            let j = choose|j: int| 0 <= j < all.len() && all[j] == x;
            if j < m - 1 {
                assert(head[j] == x);
            }
        }
        if head.contains(x) {
            let j = choose|j: int| 0 <= j < head.len() && head[j] == x;
            assert(all[j] == x);
        }
    } else {
        assert(names.take(0).len() == 0);
    }
}

/// A full mesh never has an edge from a node to itself.
pub proof fn lemma_mesh_no_loops(names: Seq<Seq<char>>)
    ensures
        no_loops(mesh(names)),
{
    let edges = mesh(names);
    assert forall|k: int| 0 <= k < edges.len() implies (#[trigger] edges[k]).0 != edges[k].1 by {
        let e = edges[k];
        assert(edges.contains(e));
        lemma_mesh_contains(names, e.0, e.1);
    }
}

proof fn lemma_mesh_row_len(names: Seq<Seq<char>>, i: int, n: int)
    requires
        names.no_duplicates(),
        0 <= i < names.len(),
        0 <= n <= names.len(),
    ensures
        mesh_row(names, names[i], n).len() == if n > i {
            n - 1
        } else {
            n
        },
    decreases n,
{
    if n > 0 {
        lemma_mesh_row_len(names, i, n - 1);
    }
}

proof fn lemma_mesh_rows_len(names: Seq<Seq<char>>, m: int)
    requires
        names.no_duplicates(),
        0 <= m <= names.len(),
    ensures
        mesh_rows(names, m).len() == m * (names.len() - 1),
    decreases m,
{
    if m > 0 {
        let w = names.len() - 1;
        lemma_mesh_rows_len(names, m - 1);
        lemma_mesh_row_len(names, m - 1, names.len() as int);
        assert(mesh_rows(names, m).len() == (m - 1) * w + w);
        assert((m - 1) * w + w == m * w) by (nonlinear_arith);
    } else {
        assert(mesh_rows(names, m).len() == 0);
    }
}

/// The size of a full mesh: over a list of `n` different names it has
/// `n * (n - 1)` edges.
pub proof fn lemma_mesh_len(names: Seq<Seq<char>>)
    requires
        names.no_duplicates(),
    ensures
        mesh(names).len() == names.len() * (names.len() - 1),
{
    lemma_mesh_rows_len(names, names.len() as int);
}

proof fn lemma_later_row_contains(names: Seq<Seq<char>>, i: int, n: int, x: Seq<char>, y: Seq<char>)
    requires
        0 <= i < names.len(),
        0 <= n <= names.len(),
    ensures
        later_row(names, i, n).contains((x, y)) <==> (x == names[i] && y != x && exists|j: int|
            i < j < n && #[trigger] names[j] == y),
    decreases n,
{
    if n > i + 1 {
        lemma_later_row_contains(names, i, n - 1, x, y);
        let rest = later_row(names, i, n - 1);
        let last = names[n - 1];
        if last != names[i] {
            let row = rest.push((names[i], last));
            assert(row[row.len() - 1] == (names[i], last));
            if rest.contains((x, y)) {
                let k = choose|k: int| 0 <= k < rest.len() && rest[k] == (x, y);
                assert(row[k] == (x, y));
            }
        }
        if x == names[i] && y != x && exists|j: int| i < j < n && #[trigger] names[j] == y {
            let j = choose|j: int| i < j < n && #[trigger] names[j] == y;
            if j < n - 1 {
                assert(names[j] == y);
            }
        }
    }
}

proof fn lemma_triangle_rows_contains(names: Seq<Seq<char>>, m: int, x: Seq<char>, y: Seq<char>)
    requires
        0 <= m <= names.len(),
    ensures
        triangle_rows(names, m).contains((x, y)) <==> (x != y && exists|i: int, j: int|
            #![trigger names[i], names[j]]
            0 <= i < m && i < j < names.len() && names[i] == x && names[j] == y),
    decreases m,
{
    broadcast use vstd::seq_lib::lemma_seq_concat_contains_all_elements;

    if m > 0 {
        lemma_triangle_rows_contains(names, m - 1, x, y);
        lemma_later_row_contains(names, m - 1, names.len() as int, x, y);
        if later_row(names, m - 1, names.len() as int).contains((x, y)) {
            let j = choose|j: int| m - 1 < j < names.len() && #[trigger] names[j] == y;
            assert(names[m - 1] == x && names[j] == y);
        }
        if x != y && exists|i: int, j: int|
            #![trigger names[i], names[j]]
            0 <= i < m && i < j < names.len() && names[i] == x && names[j] == y {
            let (i, j) = choose|i: int, j: int|
                #![trigger names[i], names[j]]
                0 <= i < m && i < j < names.len() && names[i] == x && names[j] == y;
            if i == m - 1 {
                assert(names[j] == y);
            } else {
                assert(names[i] == x && names[j] == y);
            }
        }
    }
}

/// What a half mesh holds: `(x, y)` is an edge of it exactly when `x` and
/// `y` are different names and `x` stands somewhere before `y` in the list.
pub proof fn lemma_triangle_contains(names: Seq<Seq<char>>, x: Seq<char>, y: Seq<char>)
    ensures
        triangle(names).contains((x, y)) <==> (x != y && exists|i: int, j: int|
            #![trigger names[i], names[j]]
            0 <= i < j < names.len() && names[i] == x && names[j] == y),
{
    lemma_triangle_rows_contains(names, names.len() as int, x, y);
}

/// A half mesh never has an edge from a node to itself.
pub proof fn lemma_triangle_no_loops(names: Seq<Seq<char>>)
    ensures
        no_loops(triangle(names)),
{
    let edges = triangle(names);
    assert forall|k: int| 0 <= k < edges.len() implies (#[trigger] edges[k]).0 != edges[k].1 by {
        let e = edges[k];
        assert(edges.contains(e));
        lemma_triangle_contains(names, e.0, e.1);
    }
}

/// A half mesh over different names joins two of them once: of the two
/// edges between them it holds exactly one.
pub proof fn lemma_triangle_joins_once(names: Seq<Seq<char>>, x: Seq<char>, y: Seq<char>)
    requires
        names.no_duplicates(),
        names.contains(x),
        names.contains(y),
        x != y,
    ensures
        triangle(names).contains((x, y)) != triangle(names).contains((y, x)),
{
    lemma_triangle_contains(names, x, y);
    lemma_triangle_contains(names, y, x);
    let p = choose|p: int| 0 <= p < names.len() && names[p] == x;
    let q = choose|q: int| 0 <= q < names.len() && names[q] == y;
    if p < q {
        assert(names[p] == x && names[q] == y);
    } else {
        assert(names[q] == y && names[p] == x);
    }
}

proof fn lemma_later_row_len(names: Seq<Seq<char>>, i: int, n: int)
    requires
        names.no_duplicates(),
        0 <= i < names.len(),
        i < n <= names.len(),
    ensures
        later_row(names, i, n).len() == n - i - 1,
    decreases n,
{
    if n > i + 1 {
        lemma_later_row_len(names, i, n - 1);
    }
}

proof fn lemma_triangle_rows_len(names: Seq<Seq<char>>, m: int)
    requires
        names.no_duplicates(),
        0 <= m <= names.len(),
    ensures
        2 * triangle_rows(names, m).len() == m * (2 * names.len() - m - 1),
    decreases m,
{
    let n = names.len() as int;
    if m > 0 {
        lemma_triangle_rows_len(names, m - 1);
        lemma_later_row_len(names, m - 1, n);
        let before = triangle_rows(names, m - 1).len() as int;
        assert(triangle_rows(names, m).len() == before + (n - m));
        assert(2 * before == (m - 1) * (2 * n - m) ==> 2 * (before + (n - m)) == m * (2 * n - m
            - 1)) by (nonlinear_arith);
    } else {
        assert(triangle_rows(names, m).len() == 0);
    }
}

/// The size of a half mesh: over a list of `n` different names it has half
/// as many edges as the full mesh, `n * (n - 1) / 2`.
pub proof fn lemma_triangle_len(names: Seq<Seq<char>>)
    requires
        names.no_duplicates(),
    ensures
        2 * triangle(names).len() == names.len() * (names.len() - 1),
{
    let n = names.len() as int;
    lemma_triangle_rows_len(names, n);
    assert(n * (2 * n - n - 1) == n * (n - 1)) by (nonlinear_arith);
}

/// The shape of the two stars: each has one edge per listed name, in the
/// order of the list, and all its edges share the fixed end.
pub proof fn lemma_star_shape(names: Seq<Seq<char>>, hub: Seq<char>)
    ensures
        star_in(names, hub).len() == names.len(),
        star_out(hub, names).len() == names.len(),
        forall|k: int|
            0 <= k < names.len() ==> #[trigger] star_in(names, hub)[k] == (names[k], hub),
        forall|k: int|
            0 <= k < names.len() ==> #[trigger] star_out(hub, names)[k] == (hub, names[k]),
{
}

/// The plan of a run: the registered nodes and the dial edges between them.
///
/// No two registered nodes share a name, and no edge leads from a node to
/// itself. Edges are kept in the order in which they were declared, and a
/// pair that is declared twice is kept twice.
#[derive(Debug)]
pub struct Network<NodeKind> {
    nodes: Vec<Node<NodeKind>>,
    connections: Vec<(NodeId, NodeId)>,
}

impl<NodeKind> Default for Network<NodeKind> {
    fn default() -> (plan: Self)
        ensures
            plan.wf(),
            plan.ids() == Seq::<Seq<char>>::empty(),
            plan.kinds() == Seq::<NodeKind>::empty(),
            plan.edges() == Seq::<(Seq<char>, Seq<char>)>::empty(),
    {
        let plan = Network { nodes: Vec::new(), connections: Vec::new() };
        assert(plan.ids() =~= Seq::<Seq<char>>::empty());
        assert(plan.kinds() =~= Seq::<NodeKind>::empty());
        assert(plan.edges() =~= Seq::<(Seq<char>, Seq<char>)>::empty());
        plan
    }
}

impl<NodeKind> Network<NodeKind> {
    /// The names of the registered nodes, in the order of registration.
    pub closed spec fn ids(&self) -> Seq<Seq<char>> {
        self.nodes@.map_values(|n: Node<NodeKind>| n.id@)
    }

    /// The roles of the registered nodes, in the order of registration.
    pub closed spec fn kinds(&self) -> Seq<NodeKind> {
        self.nodes@.map_values(|n: Node<NodeKind>| n.kind)
    }

    /// The declared edges as pairs of names, dialer first, in the order of
    /// declaration.
    pub closed spec fn edges(&self) -> Seq<(Seq<char>, Seq<char>)> {
        edges_of(self.connections@)
    }

    /// The plan is valid: names are registered once, and no edge is a loop.
    pub open spec fn wf(&self) -> bool {
        &&& self.ids().no_duplicates()
        &&& self.ids().len() == self.kinds().len()
        &&& no_loops(self.edges())
    }

    /// Whether a node of this name is registered.
    pub fn contains(&self, id: &str) -> (found: bool)
        ensures
            found == self.ids().contains(id@),
    {
        let wanted = NodeId::new(id);
        let mut i: usize = 0;
        while i < self.nodes.len()
            invariant
                i <= self.nodes.len(),
                wanted@ == id@,
                forall|k: int| 0 <= k < i ==> self.ids()[k] != id@,
            decreases self.nodes.len() - i,
        {
            if self.nodes[i].id == wanted {
                assert(self.ids()[i as int] == id@);
                return true;
            }
            i += 1;
        }
        false
    }

    /// Adds a new node to the plan and returns its identifier. The name must
    /// not be registered yet.
    pub fn node(&mut self, id: &str, kind: NodeKind) -> (registered: NodeId)
        requires
            old(self).wf(),
            !old(self).ids().contains(id@),
        ensures
            final(self).wf(),
            final(self).ids() == old(self).ids().push(id@),
            final(self).kinds() == old(self).kinds().push(kind),
            final(self).edges() == old(self).edges(),
            registered@ == id@,
    {
        let registered = NodeId::new(id);
        let node = Node { id: registered.clone(), kind };
        self.nodes.push(node);
        proof {
            assert(self.ids() =~= old(self).ids().push(id@));
            assert(self.kinds() =~= old(self).kinds().push(kind));
        }
        registered
    }

    /// Adds a new node unless its name is taken: then the plan stays as it
    /// is and nothing is returned.
    pub fn try_node(&mut self, id: &str, kind: NodeKind) -> (registered: Option<NodeId>)
        requires
            old(self).wf(),
        ensures
            final(self).wf(),
            final(self).edges() == old(self).edges(),
            registered.is_some() == !old(self).ids().contains(id@),
            match registered {
                Some(r) => r@ == id@ && final(self).ids() == old(self).ids().push(id@)
                    && final(self).kinds() == old(self).kinds().push(kind),
                None => final(self).ids() == old(self).ids() && final(self).kinds() == old(
                    self,
                ).kinds(),
            },
    {
        if self.contains(id) {
            None
        } else {
            Some(self.node(id, kind))
        }
    }

    /// The number of registered nodes.
    pub fn node_count(&self) -> (n: usize)
        ensures
            n == self.ids().len(),
    {
        self.nodes.len()
    }

    /// The number of declared edges.
    pub fn edge_count(&self) -> (n: usize)
        ensures
            n == self.edges().len(),
    {
        self.connections.len()
    }

    /// The edge declared at position `k`, dialer first, if there are that
    /// many edges.
    pub fn edge(&self, k: usize) -> (e: Option<(&NodeId, &NodeId)>)
        ensures
            e.is_some() == (k < self.edges().len()),
            e.is_some() ==> (e.unwrap().0@, e.unwrap().1@) == self.edges()[k as int],
    {
        if k < self.connections.len() {
            Some((&self.connections[k].0, &self.connections[k].1))
        } else {
            None
        }
    }

    /// Connects all the given nodes with each other: an edge from each of
    /// them to every other one, in both directions, and never one from a
    /// node to itself.
    pub fn connect_all(&mut self, nodes: &[NodeId])
        requires
            old(self).wf(),
        ensures
            final(self).wf(),
            final(self).ids() == old(self).ids(),
            final(self).kinds() == old(self).kinds(),
            final(self).edges() == old(self).edges() + mesh(names_of(nodes@)),
            names_of(nodes@).no_duplicates() ==> final(self).edges().len() == old(
                self,
            ).edges().len() + nodes@.len() * (nodes@.len() - 1),
    {
        let ghost names = names_of(nodes@);
        let ghost before = self.edges();
        let n = nodes.len();
        let mut i: usize = 0;
        while i < n
            invariant
                i <= n,
                n == nodes@.len(),
                names == names_of(nodes@),
                self.nodes == old(self).nodes,
                self.edges() == before + mesh_rows(names, i as int),
            decreases n - i,
        {
            let ghost rows = before + mesh_rows(names, i as int);
            let mut j: usize = 0;
            while j < n
                invariant
                    j <= n,
                    i < n,
                    n == nodes@.len(),
                    names == names_of(nodes@),
                    self.nodes == old(self).nodes,
                    self.edges() == rows + mesh_row(names, names[i as int], j as int),
                decreases n - j,
            {
                let ghost row = mesh_row(names, names[i as int], j as int);
                if !(nodes[i] == nodes[j]) {
                    self.connections.push((nodes[i].clone(), nodes[j].clone()));
                    assert(self.edges() =~= (rows + row).push((names[i as int], names[j as int])));
                    assert((rows + row).push((names[i as int], names[j as int])) =~= rows
                        + row.push((names[i as int], names[j as int])));
                }
                j += 1;
            }
            assert(rows + mesh_row(names, names[i as int], n as int) =~= before + mesh_rows(
                names,
                i + 1,
            ));
            i += 1;
        }
        proof {
            lemma_mesh_no_loops(names);
            if names.no_duplicates() {
                lemma_mesh_len(names);
            }
        }
    }

    /// Connects all the given nodes with each other, once for each pair:
    /// an edge from each of them to every other one that stands later in
    /// the list. Of two nodes the one that stands first dials. Use either
    /// this or `connect_all` throughout a plan: which side dials differs.
    pub fn connect_pairs(&mut self, nodes: &[NodeId])
        requires
            old(self).wf(),
        ensures
            final(self).wf(),
            final(self).ids() == old(self).ids(),
            final(self).kinds() == old(self).kinds(),
            final(self).edges() == old(self).edges() + triangle(names_of(nodes@)),
            names_of(nodes@).no_duplicates() ==> 2 * (final(self).edges().len() - old(
                self,
            ).edges().len()) == nodes@.len() * (nodes@.len() - 1),
    {
        let ghost names = names_of(nodes@);
        let ghost before = self.edges();
        let n = nodes.len();
        let mut i: usize = 0;
        while i < n
            invariant
                i <= n,
                n == nodes@.len(),
                names == names_of(nodes@),
                self.nodes == old(self).nodes,
                self.edges() == before + triangle_rows(names, i as int),
            decreases n - i,
        {
            let ghost rows = before + triangle_rows(names, i as int);
            let mut j: usize = i + 1;
            while j < n
                invariant
                    i < j <= n,
                    n == nodes@.len(),
                    names == names_of(nodes@),
                    self.nodes == old(self).nodes,
                    self.edges() == rows + later_row(names, i as int, j as int),
                decreases n - j,
            {
                let ghost row = later_row(names, i as int, j as int);
                if !(nodes[i] == nodes[j]) {
                    self.connections.push((nodes[i].clone(), nodes[j].clone()));
                    assert(self.edges() =~= (rows + row).push((names[i as int], names[j as int])));
                    assert((rows + row).push((names[i as int], names[j as int])) =~= rows
                        + row.push((names[i as int], names[j as int])));
                }
                j += 1;
            }
            assert(rows + later_row(names, i as int, n as int) =~= before + triangle_rows(
                names,
                i + 1,
            ));
            i += 1;
        }
        proof {
            lemma_triangle_no_loops(names);
            if names.no_duplicates() {
                lemma_triangle_len(names);
            }
        }
    }

    /// Connects each of the given nodes to `target`: one edge per listed
    /// node, all of them ending at `target`. `target` is not among them.
    pub fn connect_each_to(&mut self, nodes: &[NodeId], target: NodeId)
        requires
            old(self).wf(),
            !names_of(nodes@).contains(target@),
        ensures
            final(self).wf(),
            final(self).ids() == old(self).ids(),
            final(self).kinds() == old(self).kinds(),
            final(self).edges() == old(self).edges() + star_in(names_of(nodes@), target@),
            final(self).edges().len() == old(self).edges().len() + nodes@.len(),
    {
        let ghost names = names_of(nodes@);
        let ghost before = self.edges();
        let n = nodes.len();
        let mut i: usize = 0;
        while i < n
            invariant
                i <= n,
                n == nodes@.len(),
                names == names_of(nodes@),
                self.nodes == old(self).nodes,
                self.edges() == before + star_in(names.take(i as int), target@),
            decreases n - i,
        {
            let ghost star = star_in(names.take(i as int), target@);
            self.connections.push((nodes[i].clone(), target.clone()));
            assert(names[i as int] == nodes@[i as int]@);
            assert(self.edges() =~= (before + star).push((names[i as int], target@)));
            assert(names.take(i + 1) =~= names.take(i as int).push(names[i as int]));
            assert(star_in(names.take(i + 1), target@) =~= star.push((names[i as int], target@)));
            assert(self.edges() =~= before + star_in(names.take(i + 1), target@));
            i += 1;
        }
        proof {
            assert(names.take(n as int) =~= names);
            let added = star_in(names, target@);
            assert forall|k: int| 0 <= k < added.len() implies (#[trigger] added[k]).0
                != added[k].1 by {
                assert(names[k] != target@);
            }
        }
    }

    /// Connects `node` to all the listed nodes: one edge per listed node,
    /// all of them starting at `node`. `node` is not among them.
    pub fn connect_to_all(&mut self, node: NodeId, targets: &[NodeId])
        requires
            old(self).wf(),
            !names_of(targets@).contains(node@),
        ensures
            final(self).wf(),
            final(self).ids() == old(self).ids(),
            final(self).kinds() == old(self).kinds(),
            final(self).edges() == old(self).edges() + star_out(node@, names_of(targets@)),
            final(self).edges().len() == old(self).edges().len() + targets@.len(),
    {
        let ghost names = names_of(targets@);
        let ghost before = self.edges();
        let n = targets.len();
        let mut i: usize = 0;
        while i < n
            invariant
                i <= n,
                n == targets@.len(),
                names == names_of(targets@),
                self.nodes == old(self).nodes,
                self.edges() == before + star_out(node@, names.take(i as int)),
            decreases n - i,
        {
            let ghost star = star_out(node@, names.take(i as int));
            self.connections.push((node.clone(), targets[i].clone()));
            assert(names[i as int] == targets@[i as int]@);
            assert(self.edges() =~= (before + star).push((node@, names[i as int])));
            assert(names.take(i + 1) =~= names.take(i as int).push(names[i as int]));
            assert(star_out(node@, names.take(i + 1)) =~= star.push((node@, names[i as int])));
            assert(self.edges() =~= before + star_out(node@, names.take(i + 1)));
            i += 1;
        }
        proof {
            assert(names.take(n as int) =~= names);
            let added = star_out(node@, names);
            assert forall|k: int| 0 <= k < added.len() implies (#[trigger] added[k]).0
                != added[k].1 by {
                assert(names[k] != node@);
            }
        }
    }

    /// Starts the run. The plan is used up: its edges go to the control
    /// side, which starts with nothing known of any node, and its nodes are
    /// handed out, one for each execution context to launch.
    pub fn start(self, policy: Policy) -> (run: (Orchestrator, Vec<Node<NodeKind>>))
        requires
            self.wf(),
        ensures
            run.0@.wf(),
            run.0@ == initial(self.ids(), self.edges(), policy),
            node_names(run.1@) == self.ids(),
            node_roles(run.1@) == self.kinds(),
    {
        let ghost names = self.ids();
        let Network { nodes, connections } = self;
        let mut ids: Vec<NodeId> = Vec::new();
        let mut i: usize = 0;
        while i < nodes.len()
            invariant
                i <= nodes.len(),
                names == nodes@.map_values(|n: Node<NodeKind>| n.id@),
                names_of(ids@) == names.take(i as int),
            decreases nodes.len() - i,
        {
            let ghost head = names_of(ids@);
            let id = nodes[i].id.clone();
            assert(id@ == names[i as int]);
            ids.push(id);
            assert(names_of(ids@) =~= head.push(names[i as int]));
            assert(names_of(ids@) =~= names.take(i + 1));
            i += 1;
        }
        proof {
            assert(names.take(i as int) =~= names);
            assert(node_names(nodes@) =~= names);
            assert(node_roles(nodes@) =~= self.kinds());
        }
        (Orchestrator::new(ids, connections, policy), nodes)
    }
}

} // verus!
