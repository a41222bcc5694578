//! Node identifiers and run addresses.
use vstd::prelude::*;
use vstd::std_specs::cmp::PartialEqSpecImpl;

verus! {

/// The name of a node. Two identifiers are the same node exactly when their
/// names are the same text; the view of an identifier is that text.
#[derive(Debug, Hash, PartialOrd, Ord)]
pub struct NodeId {
    name: String,
}

impl View for NodeId {
    type V = Seq<char>;

    closed spec fn view(&self) -> Seq<char> {
        self.name@
    }
}

impl NodeId {
    /// Creates the identifier with the given name.
    pub fn new(name: &str) -> (id: NodeId)
        ensures
            id@ == name@,
    {
        NodeId { name: name.to_owned() }
    }

    /// The name this identifier was created with.
    pub fn as_str(&self) -> (name: &str)
        ensures
            name@ == self@,
    {
        self.name.as_str()
    }

    /// Whether this identifier names one of the listed nodes.
    pub fn is_among(&self, nodes: &[NodeId]) -> (found: bool)
        ensures
            found == names_of(nodes@).contains(self@),
    {
        let mut i: usize = 0;
        while i < nodes.len()
            invariant
                i <= nodes.len(),
                forall|k: int| 0 <= k < i ==> names_of(nodes@)[k] != self@,
            decreases nodes.len() - i,
        {
            if nodes[i] == *self {
                assert(names_of(nodes@)[i as int] == self@);
                return true;
            }
            i += 1;
        }
        false
    }

    /// The name as an owned string, for display.
    pub fn to_text(&self) -> (text: String)
        ensures
            text@ == self@,
    {
        self.name.clone()
    }
}

impl Clone for NodeId {
    fn clone(&self) -> (copy: Self)
        ensures
            copy@ == self@,
    {
        NodeId { name: self.name.clone() }
    }
}

impl PartialEq for NodeId {
    fn eq(&self, other: &Self) -> (same: bool) {
        self.name == other.name
    }
}

impl PartialEqSpecImpl for NodeId {
    open spec fn obeys_eq_spec() -> bool {
        true
    }

    open spec fn eq_spec(&self, other: &Self) -> bool {
        self@ == other@
    }
}

impl Eq for NodeId {

}

/// The names of a list of identifiers, in the order of the list.
pub open spec fn names_of(ids: Seq<NodeId>) -> Seq<Seq<char>> {
    ids.map_values(|id: NodeId| id@)
}

/// The address the network substrate assigned to a node for one run: four
/// octets packed into one word, most significant first. The coordinator only
/// compares addresses and passes them on.
#[derive(Clone, Copy, Debug, PartialEq, Eq, Structural, Hash)]
pub struct RunAddress {
    pub bits: u32,
}

} // verus!
