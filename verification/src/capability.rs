//! What a protocol implementation offers so that a run can drive it.
use vstd::prelude::*;
use crate::id::{NodeId, RunAddress};

verus! {

/// A node that was set up and is running.
///
/// Both operations may block. A failure to connect stays with the node: it
/// is not reported to the run.
pub trait RunningNode: Sized {
    /// What the node hands back when it has run to its end.
    type Result;

    /// Attempts to connect to a particular address.
    fn connect_to(&mut self, addr: RunAddress);

    /// Waits for this node to run to completion and returns its result.
    fn wait(self) -> Self::Result;
}

/// Takes a node that is set up through the rest of its course, once its
/// request channel has been drained into `requests`: asks it to connect to
/// each requested address, in the order of the list, then waits for its
/// end. Returns the node's name with its result.
pub fn run_to_completion<N: RunningNode>(id: NodeId, node: N, requests: &Vec<RunAddress>) -> (outcome: (
    NodeId,
    N::Result,
))
    ensures
        outcome.0@ == id@,
{
    let mut node = node;
    let mut k: usize = 0;
    while k < requests.len()
        invariant
            k <= requests.len(),
        decreases requests.len() - k,
    {
        node.connect_to(requests[k]);
        k += 1;
    }
    let result = node.wait();
    (id, result)
}

} // verus!
