//! The outcomes of a run, by node.
use vstd::prelude::*;
use crate::id::{names_of, NodeId};

verus! {

/// The outcomes of a list as pairs of a name and a result.
pub open spec fn pairs_of<R>(outcomes: Seq<(NodeId, R)>) -> Seq<(Seq<char>, R)> {
    outcomes.map_values(|o: (NodeId, R)| (o.0@, o.1))
}

/// The names of a list of outcomes.
pub open spec fn keys_of<R>(pairs: Seq<(Seq<char>, R)>) -> Seq<Seq<char>> {
    pairs.map_values(|p: (Seq<char>, R)| p.0)
}

/// The mapping that a list of outcomes folds into: each name maps to the
/// result that the list gives for it, the last one where it gives several.
pub open spec fn fold<R>(pairs: Seq<(Seq<char>, R)>) -> Map<Seq<char>, R>
    decreases pairs.len(),
{
    if pairs.len() == 0 {
        Map::empty()
    } else {
        fold(pairs.drop_last()).insert(pairs.last().0, pairs.last().1)
    }
}

/// The names that a folded list maps are the names of the list.
pub proof fn lemma_fold_keys<R>(pairs: Seq<(Seq<char>, R)>, name: Seq<char>)
    ensures
        fold(pairs).contains_key(name) <==> keys_of(pairs).contains(name),
    decreases pairs.len(),
{
    let keys = keys_of(pairs);
    if pairs.len() > 0 {
        let rest = pairs.drop_last();
        let head = keys_of(rest);
        lemma_fold_keys(rest, name);
        assert(keys.drop_last() =~= head);
        assert(keys[keys.len() - 1] == pairs.last().0);
        if head.contains(name) {
            let j = choose|j: int| 0 <= j < head.len() && head[j] == name;
            assert(keys[j] == name);
        }
        if keys.contains(name) {
            let j = choose|j: int| 0 <= j < keys.len() && keys[j] == name;
            if j < keys.len() - 1 {
                assert(head[j] == name);
            }
        }
    }
}

/// Where no name occurs twice in a list, the folded list maps each name to
/// the result that stands beside it.
pub proof fn lemma_fold_value<R>(pairs: Seq<(Seq<char>, R)>, k: int)
    requires
        keys_of(pairs).no_duplicates(),
        0 <= k < pairs.len(),
    ensures
        fold(pairs).contains_key(pairs[k].0),
        fold(pairs)[pairs[k].0] == pairs[k].1,
    decreases pairs.len(),
{
    let keys = keys_of(pairs);
    let rest = pairs.drop_last();
    assert(keys_of(rest) =~= keys.drop_last());
    if k < pairs.len() - 1 {
        lemma_fold_value(rest, k);
        assert(keys[k] != keys[pairs.len() - 1]);
    }
}

/// Where no name occurs twice in a list, the folded list has one entry for
/// each outcome.
pub proof fn lemma_fold_len<R>(pairs: Seq<(Seq<char>, R)>)
    requires
        keys_of(pairs).no_duplicates(),
    ensures
        fold(pairs).dom().finite(),
        fold(pairs).dom().len() == pairs.len(),
    decreases pairs.len(),
{
    let keys = keys_of(pairs);
    if pairs.len() > 0 {
        let rest = pairs.drop_last();
        let head = keys_of(rest);
        assert(head =~= keys.drop_last());
        lemma_fold_len(rest);
        lemma_fold_keys(rest, pairs.last().0);
        if head.contains(pairs.last().0) {
            let j = choose|j: int| 0 <= j < head.len() && head[j] == pairs.last().0;
            assert(keys[j] == keys[keys.len() - 1]);
        }
    }
}

/// A run in which every registered node handed back one outcome gives a
/// report with exactly one entry for each registered node, and no other:
/// as many entries as nodes, each holding the result of its node.
pub proof fn lemma_report_is_complete<R>(ids: Seq<Seq<char>>, pairs: Seq<(Seq<char>, R)>)
    requires
        ids.no_duplicates(),
        keys_of(pairs).no_duplicates(),
        keys_of(pairs).to_set() == ids.to_set(),
    ensures
        fold(pairs).dom() == ids.to_set(),
        fold(pairs).dom().len() == ids.len(),
        forall|k: int|
            0 <= k < pairs.len() ==> fold(pairs)[(#[trigger] pairs[k]).0] == pairs[k].1,
{
    let keys = keys_of(pairs);
    assert forall|name: Seq<char>| fold(pairs).dom().contains(name) == ids.to_set().contains(
        name,
    ) by {
        lemma_fold_keys(pairs, name);
        assert(keys.to_set().contains(name) == keys.contains(name));
    }
    assert(fold(pairs).dom() =~= ids.to_set());
    lemma_fold_len(pairs);
    ids.unique_seq_to_set();
    assert forall|k: int| 0 <= k < pairs.len() implies fold(pairs)[(#[trigger] pairs[k]).0]
        == pairs[k].1 by {
        lemma_fold_value(pairs, k);
    }
}

/// The outcomes of a run: for each node that handed one back, its result.
/// The view is the mapping from names to results.
#[derive(Debug)]
pub struct Report<R> {
    entries: Vec<(NodeId, R)>,
}

impl<R> View for Report<R> {
    type V = Map<Seq<char>, R>;

    closed spec fn view(&self) -> Map<Seq<char>, R> {
        fold(pairs_of(self.entries@))
    }
}

impl<R> Report<R> {
    /// No name has two entries.
    pub closed spec fn wf(&self) -> bool {
        keys_of(pairs_of(self.entries@)).no_duplicates()
    }

    /// The report without any outcome.
    pub fn new() -> (report: Report<R>)
        ensures
            report.wf(),
            report@ == Map::<Seq<char>, R>::empty(),
    {
        Report { entries: Vec::new() }
    }

    /// The position of the entry of a node.
    fn position(&self, id: &NodeId) -> (at: Option<usize>)
        ensures
            at.is_some() == self@.contains_key(id@),
            at.is_some() ==> at.unwrap() < self.entries@.len() && self.entries@[at.unwrap() as int].0@
                == id@,
    {
        let ghost keys = keys_of(pairs_of(self.entries@));
        let mut i: usize = 0;
        while i < self.entries.len()
            invariant
                i <= self.entries.len(),
                keys == keys_of(pairs_of(self.entries@)),
                forall|k: int| 0 <= k < i ==> keys[k] != id@,
            decreases self.entries.len() - i,
        {
            if self.entries[i].0 == *id {
                proof {
                    assert(keys[i as int] == id@);
                    lemma_fold_keys(pairs_of(self.entries@), id@);
                }
                return Some(i);
            }
            i += 1;
        }
        proof {
            lemma_fold_keys(pairs_of(self.entries@), id@);
        }
        None
    }

    /// Whether the report holds the outcome of this node.
    pub fn contains(&self, id: &NodeId) -> (found: bool)
        ensures
            found == self@.contains_key(id@),
    {
        self.position(id).is_some()
    }

    /// The result of a node, if the report holds it.
    pub fn get(&self, id: &NodeId) -> (result: Option<&R>)
        requires
            self.wf(),
        ensures
            result.is_some() == self@.contains_key(id@),
            result.is_some() ==> *result.unwrap() == self@[id@],
    {
        match self.position(id) {
            Some(i) => {
                proof {
                    lemma_fold_value(pairs_of(self.entries@), i as int);
                }
                Some(&self.entries[i].1)
            },
            None => None,
        }
    }

    /// The number of nodes whose outcome the report holds.
    pub fn len(&self) -> (n: usize)
        requires
            self.wf(),
        ensures
            self@.dom().finite(),
            n == self@.dom().len(),
    {
        proof {
            lemma_fold_len(pairs_of(self.entries@));
        }
        self.entries.len()
    }

    /// The names of the nodes whose outcome the report holds, in no
    /// particular order.
    pub fn ids(&self) -> (ids: Vec<NodeId>)
        requires
            self.wf(),
        ensures
            ids@.len() == self@.dom().len(),
            forall|name: Seq<char>|
                self@.contains_key(name) <==> names_of(ids@).contains(name),
    {
        let ghost keys = keys_of(pairs_of(self.entries@));
        let mut ids: Vec<NodeId> = Vec::new();
        let mut i: usize = 0;
        while i < self.entries.len()
            invariant
                i <= self.entries.len(),
                keys == keys_of(pairs_of(self.entries@)),
                names_of(ids@) == keys.take(i as int),
            decreases self.entries.len() - i,
        {
            let ghost head = names_of(ids@);
            let id = self.entries[i].0.clone();
            assert(id@ == keys[i as int]);
            ids.push(id);
            assert(names_of(ids@) =~= head.push(keys[i as int]));
            assert(names_of(ids@) =~= keys.take(i + 1));
            i += 1;
        }
        proof {
            assert(keys.take(i as int) =~= keys);
            lemma_fold_len(pairs_of(self.entries@));
            assert forall|name: Seq<char>|
                self@.contains_key(name) <==> names_of(ids@).contains(name) by {
                lemma_fold_keys(pairs_of(self.entries@), name);
            }
        }
        ids
    }

    /// Takes the report apart: one pair for each node whose outcome it
    /// holds, in no particular order.
    pub fn into_entries(self) -> (entries: Vec<(NodeId, R)>)
        requires
            self.wf(),
        ensures
            keys_of(pairs_of(entries@)).no_duplicates(),
            fold(pairs_of(entries@)) == self@,
    {
        self.entries
    }

    /// Folds the outcomes that the joined run handed back into a report.
    /// Where a node occurs more than once, its last outcome stays.
    pub fn collect(outcomes: Vec<(NodeId, R)>) -> (report: Report<R>)
        ensures
            report.wf(),
            report@ == fold(pairs_of(outcomes@)),
    {
        let ghost all = pairs_of(outcomes@);
        let mut left = outcomes;
        let mut report: Report<R> = Report::new();
        assert(fold(all).union_prefer_right(report@) =~= fold(all));
        while left.len() > 0
            invariant
                report.wf(),
                fold(all) == fold(pairs_of(left@)).union_prefer_right(report@),
            decreases left.len(),
        {
            let ghost before = pairs_of(left@);
            let ghost kept = report@;
            let last = left.pop();
            assert(pairs_of(left@) =~= before.drop_last());
            match last {
                Some(outcome) => {
                    assert((outcome.0@, outcome.1) == before.last());
                    if !report.contains(&outcome.0) {
                        proof {
                            lemma_fold_keys(pairs_of(report.entries@), outcome.0@);
                            let pairs = pairs_of(report.entries@);
                            let grown = pairs.push((outcome.0@, outcome.1));
                            assert(grown.drop_last() =~= pairs);
                            assert(keys_of(grown) =~= keys_of(pairs).push(outcome.0@));
                        }
                        let ghost pairs = pairs_of(report.entries@);
                        report.entries.push(outcome);
                        assert(pairs_of(report.entries@) =~= pairs.push(before.last()));
                        assert(report@ =~= kept.insert(before.last().0, before.last().1));
                    }
                    assert(fold(before) =~= fold(before.drop_last()).insert(
                        before.last().0,
                        before.last().1,
                    ));
                    assert(fold(all) =~= fold(pairs_of(left@)).union_prefer_right(report@));
                },
                None => {},
            }
        }
        assert(fold(pairs_of(left@)) =~= Map::<Seq<char>, R>::empty());
        assert(fold(all) =~= report@);
        report
    }
}

} // verus!
