//! The memo table: the best plan found so far for each set of relations.

use vstd::prelude::*;
use super::node::JoinNode;
use super::relation_set::RelationSet;

verus! {

/// Best plans by relation set, at most one for each set.
#[derive(Debug, PartialEq, Eq)]
pub struct BestPlans {
    pub nodes: Vec<JoinNode>,
}

impl BestPlans {
    /// No two plans are for the same set.
    pub open spec fn wf(self) -> bool {
        forall|i: int, j: int|
            0 <= i < j < self.nodes@.len() ==> (#[trigger] self.nodes@[i]).set@ != (
            #[trigger] self.nodes@[j]).set@
    }

    /// The plan at position `i` is the one for `key`.
    pub open spec fn has_at(self, key: Seq<usize>, i: int) -> bool {
        0 <= i < self.nodes@.len() && self.nodes@[i].set@ == key
    }

    /// Whether there is a plan for `key`.
    pub open spec fn contains(self, key: Seq<usize>) -> bool {
        exists|i: int| self.has_at(key, i)
    }

    /// Where the plan for `key` is.
    pub open spec fn index_of(self, key: Seq<usize>) -> int {
        choose|i: int| self.has_at(key, i)
    }

    /// The plan for `key`.
    pub open spec fn entry(self, key: Seq<usize>) -> JoinNode {
        self.nodes@[self.index_of(key)]
    }

    /// In a well-formed table the plan at position `i` is the entry for its
    /// own set.
    pub proof fn lemma_entry_at(self, i: int)
        requires
            self.wf(),
            0 <= i < self.nodes@.len(),
        ensures
            self.contains(self.nodes@[i].set@),
            self.index_of(self.nodes@[i].set@) == i,
            self.entry(self.nodes@[i].set@) == self.nodes@[i],
    {
        let key = self.nodes@[i].set@;
        assert(self.has_at(key, i));
        let j = self.index_of(key);
        assert(self.has_at(key, j));
        if i < j {
            assert(self.nodes@[i].set@ != self.nodes@[j].set@);
        } else if j < i {
            assert(self.nodes@[j].set@ != self.nodes@[i].set@);
        }
    }

    /// An empty table.
    pub fn new() -> (plans: BestPlans)
        ensures
            plans.wf(),
            plans.nodes@.len() == 0,
            forall|key: Seq<usize>| !plans.contains(key),
    {
        let plans = BestPlans { nodes: Vec::new() };
        assert forall|key: Seq<usize>| !plans.contains(key) by {
            if plans.contains(key) {
                let i = choose|i: int| plans.has_at(key, i);
            }
        }
        plans
    }

    /// Where the plan for `key` is, if there is one.
    pub fn position(&self, key: &RelationSet) -> (found: Option<usize>)
        ensures
            found matches Some(i) ==> self.has_at(key@, i as int),
            found.is_some() == self.contains(key@),
            self.wf() && found.is_some() ==> found.unwrap() == self.index_of(key@),
    {
        let mut i: usize = 0;
        while i < self.nodes.len()
            invariant
                i <= self.nodes.len(),
                forall|k: int| 0 <= k < i ==> !self.has_at(key@, k),
            decreases self.nodes.len() - i,
        {
            if self.nodes[i].set.same(key) {
                assert(self.has_at(key@, i as int));
                proof {
                    if self.wf() {
                        self.lemma_entry_at(i as int);
                    }
                }
                return Some(i);
            }
            i += 1;
        }
        assert(!self.contains(key@)) by {
            if self.contains(key@) {
                let k = choose|k: int| self.has_at(key@, k);
                assert(!self.has_at(key@, k));
            }
        }
        None
    }

    /// Whether there is a plan for `key`.
    pub fn contains_key(&self, key: &RelationSet) -> (found: bool)
        ensures
            found == self.contains(key@),
    {
        self.position(key).is_some()
    }

    /// The plan for `key`, if there is one.
    pub fn get(&self, key: &RelationSet) -> (found: Option<&JoinNode>)
        ensures
            found.is_some() == self.contains(key@),
            self.wf() ==> (found matches Some(node) ==> *node == self.entry(key@)),
            found matches Some(node) ==> node.set@ == key@,
    {
        match self.position(key) {
            Some(i) => Some(&self.nodes[i]),
            None => None,
        }
    }

    /// Makes `node` the plan for its set, in place of the one there was, if
    /// any.
    pub fn insert(&mut self, node: JoinNode)
        requires
            old(self).wf(),
        ensures
            final(self).wf(),
            final(self).contains(node.set@),
            final(self).entry(node.set@) == node,
            forall|key: Seq<usize>|
                key != node.set@ ==> (#[trigger] final(self).contains(key)) == old(self).contains(
                    key,
                ),
            forall|key: Seq<usize>|
                key != node.set@ && old(self).contains(key) ==> (#[trigger] final(self).entry(key))
                    == old(self).entry(key),
    {
        let ghost target = node.set@;
        match self.position(&node.set) {
            Some(i) => {
                let mut slot = node;
                std::mem::swap(&mut self.nodes[i], &mut slot);
                proof {
                    let before = old(self).nodes@;
                    let after = self.nodes@;
                    assert(after =~= before.update(i as int, node));
                    assert(self.wf()) by {
                        assert forall|a: int, b: int| 0 <= a < b < after.len() implies (
                        #[trigger] after[a]).set@ != (#[trigger] after[b]).set@ by {
                            assert(before[a].set@ != before[b].set@);
                        }
                    }
                    self.lemma_entry_at(i as int);
                    assert forall|key: Seq<usize>| key != target implies (
                    #[trigger] self.contains(key)) == old(self).contains(key) by {
                        if self.contains(key) {
                            let k = choose|k: int| self.has_at(key, k);
                            assert(old(self).has_at(key, k));
                        }
                        if old(self).contains(key) {
                            let k = choose|k: int| old(self).has_at(key, k);
                            assert(self.has_at(key, k));
                        }
                    }
                    assert forall|key: Seq<usize>|
                        key != target && old(self).contains(key) implies (#[trigger] self.entry(
                        key,
                    )) == old(self).entry(key) by {
                        let k = old(self).index_of(key);
                        assert(old(self).has_at(key, k));
                        old(self).lemma_entry_at(k);
                        assert(self.has_at(key, k));
                        self.lemma_entry_at(k);
                    }
                }
            },
            None => {
                self.nodes.push(node);
                proof {
                    let before = old(self).nodes@;
                    let after = self.nodes@;
                    let last = before.len() as int;
                    assert(self.wf()) by {
                        assert forall|a: int, b: int| 0 <= a < b < after.len() implies (
                        #[trigger] after[a]).set@ != (#[trigger] after[b]).set@ by {
                            if b == last {
                                assert(!old(self).has_at(target, a));
                            } else {
                                assert(before[a].set@ != before[b].set@);
                            }
                        }
                    }
                    self.lemma_entry_at(last);
                    assert forall|key: Seq<usize>| key != target implies (
                    #[trigger] self.contains(key)) == old(self).contains(key) by {
                        if self.contains(key) {
                            let k = choose|k: int| self.has_at(key, k);
                            assert(old(self).has_at(key, k));
                        }
                        if old(self).contains(key) {
                            let k = choose|k: int| old(self).has_at(key, k);
                            assert(self.has_at(key, k));
                        }
                    }
                    assert forall|key: Seq<usize>|
                        key != target && old(self).contains(key) implies (#[trigger] self.entry(
                        key,
                    )) == old(self).entry(key) by {
                        let k = old(self).index_of(key);
                        assert(old(self).has_at(key, k));
                        old(self).lemma_entry_at(k);
                        assert(self.has_at(key, k));
                        self.lemma_entry_at(k);
                    }
                }
            },
        }
    }

    /// Takes the plan for `key` out of the table, if there is one.
    pub fn remove(&mut self, key: &RelationSet) -> (removed: Option<JoinNode>)
        requires
            old(self).wf(),
        ensures
            final(self).wf(),
            !final(self).contains(key@),
            removed.is_some() == old(self).contains(key@),
            removed.is_some() ==> final(self).nodes@.len() + 1 == old(self).nodes@.len(),
            removed.is_none() ==> final(self).nodes@ == old(self).nodes@,
            removed matches Some(node) ==> node == old(self).entry(key@) && node.set@ == key@,
            forall|other: Seq<usize>|
                other != key@ ==> (#[trigger] final(self).contains(other)) == old(self).contains(
                    other,
                ),
            forall|other: Seq<usize>|
                other != key@ && old(self).contains(other) ==> (#[trigger] final(self).entry(other))
                    == old(self).entry(other),
    {
        match self.position(key) {
            Some(i) => {
                let node = self.nodes.remove(i);
                proof {
                    let before = old(self).nodes@;
                    let after = self.nodes@;
                    assert(after =~= before.remove(i as int));
                    assert(self.wf()) by {
                        assert forall|a: int, b: int| 0 <= a < b < after.len() implies (
                        #[trigger] after[a]).set@ != (#[trigger] after[b]).set@ by {
                            let a0 = if a < i { a } else { a + 1 };
                            let b0 = if b < i { b } else { b + 1 };
                            assert(before[a0].set@ != before[b0].set@);
                        }
                    }
                    old(self).lemma_entry_at(i as int);
                    assert(!self.contains(key@)) by {
                        if self.contains(key@) {
                            let k = choose|k: int| self.has_at(key@, k);
                            let k0 = if k < i { k } else { k + 1 };
                            assert(old(self).has_at(key@, k0));
                            old(self).lemma_entry_at(k0);
                        }
                    }
                    assert forall|other: Seq<usize>| other != key@ implies (
                    #[trigger] self.contains(other)) == old(self).contains(other) by {
                        if self.contains(other) {
                            let k = choose|k: int| self.has_at(other, k);
                            let k0 = if k < i { k } else { k + 1 };
                            assert(old(self).has_at(other, k0));
                        }
                        if old(self).contains(other) {
                            let k = choose|k: int| old(self).has_at(other, k);
                            let k1 = if k < i { k } else { k - 1 };
                            assert(self.has_at(other, k1));
                        }
                    }
                    assert forall|other: Seq<usize>|
                        other != key@ && old(self).contains(other) implies (
                    #[trigger] self.entry(other)) == old(self).entry(other) by {
                        let k = old(self).index_of(other);
                        assert(old(self).has_at(other, k));
                        old(self).lemma_entry_at(k);
                        let k1 = if k < i { k } else { k - 1 };
                        assert(self.has_at(other, k1));
                        self.lemma_entry_at(k1);
                    }
                }
                Some(node)
            },
            None => None,
        }
    }
}

} // verus!
