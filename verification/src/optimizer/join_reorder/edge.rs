//! The hypergraph: join conditions as edges between sets of base relations.

use vstd::prelude::*;
use crate::logical::binder::TableRef;
use super::condition::ReorderableCondition;
use super::error::JoinOrderError;
use super::node::BaseRelation;
use super::relation_set::{RelId, RelationSet};
use super::sorted_ids::{
    below, contains_id, copy_ids, insert_id, intersects_ids, is_ordered, is_subset_ids,
    lemma_members_empty, lemma_members_take_next, members, union_ids,
};

verus! {

/// Unique id of an edge in the graph.
pub type EdgeId = usize;

/// How an edge joins its two sides.
#[derive(Debug, Clone, Copy, PartialEq, Eq, Structural)]
pub enum EdgeType {
    /// On the condition of an inner join.
    Inner,
    /// On the conditions of a semi join.
    Semi,
    /// Without a condition.
    Cross,
}

/// What the search needs to know of an edge that connects two sets.
#[derive(Debug, Clone, Copy, PartialEq, Eq, Structural)]
pub struct NeighborEdge {
    pub edge_id: EdgeId,
    pub edge_op: EdgeType,
    /// The edge's estimate of the number of distinct values joined on.
    pub min_ndv: u128,
}

/// An edge between two nonempty sets of base relations.
#[derive(Debug, PartialEq, Eq)]
pub struct HyperEdge {
    pub id: EdgeId,
    /// The relations that the left side of the condition is over.
    pub left_rels: Vec<RelId>,
    /// The relations that the right side of the condition is over.
    pub right_rels: Vec<RelId>,
    /// The tables mentioned on the left side of the condition.
    pub left_refs: Vec<TableRef>,
    /// The tables mentioned on the right side of the condition.
    pub right_refs: Vec<TableRef>,
    /// The condition. An edge without one stands for a cross product.
    pub filter: Option<ReorderableCondition>,
    /// Estimated number of distinct values joined on.
    pub min_ndv: u128,
}

impl HyperEdge {
    /// All relations that the edge touches.
    pub open spec fn span(self) -> Set<RelId> {
        members(self.left_rels@).union(members(self.right_rels@))
    }

    /// Whether the edge touches a relation of `set`.
    pub open spec fn touches(self, set: Set<RelId>) -> bool {
        exists|r: RelId| self.span().contains(r) && set.contains(r)
    }

    /// Whether the edge joins `left` with `right`: all relations that it
    /// touches are in one of the two, and it touches both.
    pub open spec fn connects(self, left: Set<RelId>, right: Set<RelId>) -> bool {
        &&& self.span().subset_of(left.union(right))
        &&& self.touches(left)
        &&& self.touches(right)
    }

    /// How the edge joins its two sides.
    pub open spec fn edge_type(self) -> EdgeType {
        match self.filter {
            None => EdgeType::Cross,
            Some(ReorderableCondition::Inner { .. }) => EdgeType::Inner,
            Some(ReorderableCondition::Semi { .. }) => EdgeType::Semi,
        }
    }

    /// The edge as the search sees it.
    pub open spec fn describe(self) -> NeighborEdge {
        NeighborEdge { edge_id: self.id, edge_op: self.edge_type(), min_ndv: self.min_ndv }
    }

    /// The edge sits at position `id` of a graph over `n` relations: both
    /// sides are nonempty sets of relations of the graph, and an edge with a
    /// condition touches at least two relations.
    pub open spec fn wf(self, id: int, n: nat) -> bool {
        &&& self.id == id
        &&& self.left_rels@.len() > 0
        &&& self.right_rels@.len() > 0
        &&& below(self.left_rels@, n as int)
        &&& below(self.right_rels@, n as int)
        &&& self.filter.is_some() ==> exists|a: RelId, b: RelId|
            a != b && self.span().contains(a) && self.span().contains(b)
    }

    /// Whether the edge touches a relation of `set`.
    pub fn touches_set(&self, set: &RelationSet) -> (touching: bool)
        ensures
            touching == self.touches(set.rels()),
    {
        let touching = intersects_ids(&self.left_rels, &set.relation_indices) || intersects_ids(
            &self.right_rels,
            &set.relation_indices,
        );
        proof {
            if touching {
                let r = choose|r: RelId|
                    (members(self.left_rels@).contains(r) || members(self.right_rels@).contains(r))
                        && set.rels().contains(r);
                assert(self.span().contains(r) && set.rels().contains(r));
            }
        }
        touching
    }

    /// Whether the edge joins `left` with `right`.
    pub fn connects_sets(&self, left: &RelationSet, right: &RelationSet) -> (connecting: bool)
        ensures
            connecting == self.connects(left.rels(), right.rels()),
    {
        let both = union_ids(&left.relation_indices, &right.relation_indices);
        let covered = is_subset_ids(&self.left_rels, &both) && is_subset_ids(
            &self.right_rels,
            &both,
        );
        proof {
            if covered {
                assert(self.span().subset_of(left.rels().union(right.rels())));
            } else {
                if self.span().subset_of(left.rels().union(right.rels())) {
                    assert(members(self.left_rels@).subset_of(self.span()));
                    assert(members(self.right_rels@).subset_of(self.span()));
                }
            }
        }
        covered && self.touches_set(left) && self.touches_set(right)
    }

    /// How the edge joins its two sides.
    pub fn op(&self) -> (edge_op: EdgeType)
        ensures
            edge_op == self.edge_type(),
    {
        match &self.filter {
            None => EdgeType::Cross,
            Some(ReorderableCondition::Inner { .. }) => EdgeType::Inner,
            Some(ReorderableCondition::Semi { .. }) => EdgeType::Semi,
        }
    }
}

/// The edges of the graph, each at the position that is its id. An edge
/// leaves its position empty when the plan takes its condition.
#[derive(Debug, PartialEq, Eq)]
pub struct HyperEdges {
    pub edges: Vec<Option<HyperEdge>>,
}

/// The relations of `from` that are neither in `set` nor in `exclude`.
pub open spec fn candidates(from: Set<RelId>, set: Set<RelId>, exclude: Set<RelId>) -> Set<RelId> {
    Set::new(|r: RelId| from.contains(r) && !set.contains(r) && !exclude.contains(r))
}

/// Adds to `out` the relations of `from` that are neither in `set` nor in
/// `exclude`.
fn add_candidates(out: &mut Vec<RelId>, from: &Vec<RelId>, set: &RelationSet, exclude: &Vec<RelId>)
    requires
        is_ordered(old(out)@),
    ensures
        is_ordered(final(out)@),
        members(final(out)@) == members(old(out)@).union(
            candidates(members(from@), set.rels(), members(exclude@)),
        ),
{
    let mut k: usize = 0;
    proof {
        lemma_members_empty(from@.take(0));
        assert(members(out@) =~= members(old(out)@).union(
            candidates(members(from@.take(0)), set.rels(), members(exclude@)),
        ));
    }
    while k < from.len()
        invariant
            k <= from.len(),
            is_ordered(out@),
            members(out@) == members(old(out)@).union(
                candidates(members(from@.take(k as int)), set.rels(), members(exclude@)),
            ),
        decreases from.len() - k,
    {
        let r = from[k];
        let ghost before = members(out@);
        if !set.contains(r) && !contains_id(exclude, r) {
            insert_id(out, r);
        }
        proof {
            lemma_members_take_next(from@, k as int);
            assert(members(out@) =~= members(old(out)@).union(
                candidates(members(from@.take(k + 1)), set.rels(), members(exclude@)),
            ));
        }
        k += 1;
    }
    assert(from@.take(from.len() as int) =~= from@);
}

impl HyperEdges {
    /// The edge at `id`, while it is in the graph.
    pub open spec fn present(self, id: int) -> bool {
        0 <= id < self.edges@.len() && self.edges@[id].is_some()
    }

    /// The edge at `id`.
    pub open spec fn edge(self, id: int) -> HyperEdge {
        self.edges@[id].unwrap()
    }

    /// Every edge in the graph is well formed for a graph over `n` relations.
    pub open spec fn wf(self, n: nat) -> bool {
        forall|id: int| self.present(id) ==> (#[trigger] self.edge(id)).wf(id, n)
    }

    /// Whether one of the first `upto` edges touches `set` and `r`.
    pub open spec fn reaches(self, set: Set<RelId>, r: RelId, upto: int) -> bool {
        exists|id: int|
            0 <= id < upto && self.present(id) && (#[trigger] self.edge(id)).touches(set)
                && self.edge(id).span().contains(r)
    }

    /// The relations outside `set` and outside `exclude` that one of the
    /// first `upto` edges touches together with `set`.
    pub open spec fn neighbors_upto(self, set: Set<RelId>, exclude: Set<RelId>, upto: int) -> Set<
        RelId,
    > {
        Set::new(|r: RelId| !set.contains(r) && !exclude.contains(r) && self.reaches(set, r, upto))
    }

    /// The relations outside `set` and outside `exclude` that an edge
    /// touching `set` also touches.
    pub open spec fn neighbors(self, set: Set<RelId>, exclude: Set<RelId>) -> Set<RelId> {
        self.neighbors_upto(set, exclude, self.edges@.len() as int)
    }

    /// The edge at `id` is in the graph under its own id and joins `left`
    /// with `right`.
    pub open spec fn joins_at(self, id: int, left: Set<RelId>, right: Set<RelId>) -> bool {
        self.present(id) && self.edge(id).id == id && self.edge(id).connects(left, right)
    }

    /// `found` describes an edge of the graph that joins `left` with `right`.
    pub open spec fn is_found(
        self,
        found: NeighborEdge,
        left: Set<RelId>,
        right: Set<RelId>,
    ) -> bool {
        self.joins_at(found.edge_id as int, left, right) && found == self.edge(
            found.edge_id as int,
        ).describe()
    }

    /// What one more edge adds to the neighbors.
    proof fn lemma_neighbors_step(self, set: Set<RelId>, exclude: Set<RelId>, i: int)
        requires
            0 <= i < self.edges@.len(),
        ensures
            self.present(i) && self.edge(i).touches(set) ==> self.neighbors_upto(
                set,
                exclude,
                i + 1,
            ) == self.neighbors_upto(set, exclude, i).union(
                candidates(self.edge(i).span(), set, exclude),
            ),
            !(self.present(i) && self.edge(i).touches(set)) ==> self.neighbors_upto(
                set,
                exclude,
                i + 1,
            ) == self.neighbors_upto(set, exclude, i),
    {
        let here = self.present(i) && self.edge(i).touches(set);
        let added = if here {
            candidates(self.edge(i).span(), set, exclude)
        } else {
            Set::empty()
        };
        assert forall|r: RelId|
            self.neighbors_upto(set, exclude, i + 1).contains(r) == self.neighbors_upto(
                set,
                exclude,
                i,
            ).union(added).contains(r) by {
            if self.reaches(set, r, i + 1) {
                let id = choose|id: int|
                    0 <= id < i + 1 && self.present(id) && (#[trigger] self.edge(id)).touches(set)
                        && self.edge(id).span().contains(r);
                if id < i {
                    assert(self.reaches(set, r, i));
                }
            }
            if self.reaches(set, r, i) {
                let id = choose|id: int|
                    0 <= id < i && self.present(id) && (#[trigger] self.edge(id)).touches(set)
                        && self.edge(id).span().contains(r);
                assert(self.reaches(set, r, i + 1));
            }
            if here && self.edge(i).span().contains(r) {
                assert(self.reaches(set, r, i + 1));
            }
        }
        assert(self.neighbors_upto(set, exclude, i + 1) =~= self.neighbors_upto(
            set,
            exclude,
            i,
        ).union(added));
        if !here {
            assert(self.neighbors_upto(set, exclude, i).union(added) =~= self.neighbors_upto(
                set,
                exclude,
                i,
            ));
        }
    }

    /// Whether an edge in the graph joins `left` with `right`.
    pub open spec fn connected(self, left: Set<RelId>, right: Set<RelId>) -> bool {
        exists|id: int| #[trigger] self.joins_at(id, left, right)
    }

    /// A graph without edges.
    pub fn empty() -> (graph: HyperEdges)
        ensures
            graph.edges@.len() == 0,
    {
        HyperEdges { edges: Vec::new() }
    }

    /// All relations directly reachable from `set` over an edge, without
    /// those in `exclude`, in increasing order.
    pub fn find_neighbors(&self, set: &RelationSet, exclude: &Vec<RelId>) -> (neighbors: Vec<RelId>)
        ensures
            is_ordered(neighbors@),
            members(neighbors@) == self.neighbors(set.rels(), members(exclude@)),
    {
        let mut out: Vec<RelId> = Vec::new();
        let mut i: usize = 0;
        proof {
            lemma_members_empty(out@);
            assert(members(out@) =~= self.neighbors_upto(set.rels(), members(exclude@), 0));
        }
        while i < self.edges.len()
            invariant
                i <= self.edges.len(),
                is_ordered(out@),
                members(out@) == self.neighbors_upto(set.rels(), members(exclude@), i as int),
            decreases self.edges.len() - i,
        {
            let ghost before = members(out@);
            proof {
                self.lemma_neighbors_step(set.rels(), members(exclude@), i as int);
            }
            match &self.edges[i] {
                Some(edge) => {
                    if edge.touches_set(set) {
                        add_candidates(&mut out, &edge.left_rels, set, exclude);
                        add_candidates(&mut out, &edge.right_rels, set, exclude);
                        assert(members(out@) =~= before.union(
                            candidates(edge.span(), set.rels(), members(exclude@)),
                        ));
                    }
                },
                None => {},
            }
            i += 1;
        }
        out
    }

    /// All edges that join `left` with `right`, by increasing id.
    pub fn find_edges(&self, left: &RelationSet, right: &RelationSet) -> (found: Vec<NeighborEdge>)
        ensures
            forall|k: int|
                0 <= k < found@.len() ==> self.is_found(
                    #[trigger] found@[k],
                    left.rels(),
                    right.rels(),
                ),
            forall|j: int, k: int|
                0 <= j < k < found@.len() ==> found@[j].edge_id < found@[k].edge_id,
            forall|id: int| #[trigger]
                self.joins_at(id, left.rels(), right.rels()) ==> exists|k: int|
                    0 <= k < found@.len() && (#[trigger] found@[k]).edge_id == id,
    {
        let mut found: Vec<NeighborEdge> = Vec::new();
        let mut i: usize = 0;
        while i < self.edges.len()
            invariant
                i <= self.edges.len(),
                forall|k: int|
                    0 <= k < found@.len() ==> self.is_found(
                        #[trigger] found@[k],
                        left.rels(),
                        right.rels(),
                    ) && found@[k].edge_id < i,
                forall|j: int, k: int|
                    0 <= j < k < found@.len() ==> found@[j].edge_id < found@[k].edge_id,
                forall|id: int|
                    0 <= id < i && #[trigger] self.joins_at(id, left.rels(), right.rels())
                        ==> exists|k: int|
                        0 <= k < found@.len() && (#[trigger] found@[k]).edge_id == id,
            decreases self.edges.len() - i,
        {
            let ghost before = found@;
            let mut joins = false;
            match &self.edges[i] {
                Some(edge) => {
                    if edge.id == i && edge.connects_sets(left, right) {
                        joins = true;
                        found.push(
                            NeighborEdge { edge_id: i, edge_op: edge.op(), min_ndv: edge.min_ndv },
                        );
                    }
                },
                None => {},
            }
            proof {
                assert(joins == self.joins_at(i as int, left.rels(), right.rels()));
                assert forall|id: int|
                    0 <= id < i + 1 && #[trigger] self.joins_at(
                        id,
                        left.rels(),
                        right.rels(),
                    ) implies exists|k: int|
                    0 <= k < found@.len() && (#[trigger] found@[k]).edge_id == id by {
                    if id < i {
                        let k = choose|k: int|
                            0 <= k < before.len() && (#[trigger] before[k]).edge_id == id;
                        assert(found@[k].edge_id == id);
                    } else {
                        assert(found@[before.len() as int].edge_id == id);
                    }
                }
            }
            i += 1;
        }
        found
    }

    /// Adds an edge without a condition between two base relations, for
    /// their cross product. Such an edge does not lower the estimated
    /// cardinality: it counts one distinct value.
    pub fn insert_cross_product(&mut self, left: &BaseRelation, right: &BaseRelation)
        ensures
            final(self).edges@.len() == old(self).edges@.len() + 1,
            forall|id: int|
                0 <= id < old(self).edges@.len() ==> final(self).edges@[id] == old(self).edges@[id],
            final(self).present(old(self).edges@.len() as int),
            ({
                let edge = final(self).edge(old(self).edges@.len() as int);
                &&& edge.id == old(self).edges@.len()
                &&& edge.left_rels@ == seq![left.rel_id]
                &&& edge.right_rels@ == seq![right.rel_id]
                &&& edge.left_refs@ == left.output_refs@
                &&& edge.right_refs@ == right.output_refs@
                &&& edge.filter.is_none()
                &&& edge.min_ndv == 1
            }),
    {
        let id = self.edges.len();
        let mut left_rels: Vec<RelId> = Vec::new();
        left_rels.push(left.rel_id);
        let mut right_rels: Vec<RelId> = Vec::new();
        right_rels.push(right.rel_id);
        assert(left_rels@ =~= seq![left.rel_id]);
        assert(right_rels@ =~= seq![right.rel_id]);
        self.edges.push(
            Some(
                HyperEdge {
                    id,
                    left_rels,
                    right_rels,
                    left_refs: copy_ids(&left.output_refs),
                    right_refs: copy_ids(&right.output_refs),
                    filter: None,
                    min_ndv: 1,
                },
            ),
        );
    }

    /// The edge with the given id, if it is still in the graph.
    pub fn get_edge(&self, id: EdgeId) -> (found: Option<&HyperEdge>)
        ensures
            self.present(id as int) ==> found == Some(&self.edge(id as int)),
            !self.present(id as int) ==> found.is_none(),
    {
        if id < self.edges.len() {
            self.edges[id].as_ref()
        } else {
            None
        }
    }

    /// Takes the edge with the given id out of the graph.
    pub fn remove_edge(&mut self, id: EdgeId) -> (removed: Option<HyperEdge>)
        ensures
            old(self).present(id as int) ==> removed == Some(old(self).edge(id as int))
                && final(self).edges@ == old(self).edges@.update(id as int, None),
            !old(self).present(id as int) ==> removed.is_none() && final(self).edges@
                == old(self).edges@,
    {
        if id < self.edges.len() {
            let mut slot: Option<HyperEdge> = None;
            std::mem::swap(&mut self.edges[id], &mut slot);
            assert(self.edges@ =~= old(self).edges@.update(id as int, None));
            if slot.is_none() {
                assert(self.edges@ =~= old(self).edges@);
            }
            slot
        } else {
            None
        }
    }

    /// Whether every edge that carried a condition has been removed.
    pub fn all_non_empty_edges_removed(&self) -> (all: bool)
        ensures
            all == forall|id: int| self.present(id) ==> (#[trigger] self.edge(id)).filter.is_none(),
    {
        let mut i: usize = 0;
        while i < self.edges.len()
            invariant
                i <= self.edges.len(),
                forall|id: int|
                    0 <= id < i && self.present(id) ==> (#[trigger] self.edge(id)).filter.is_none(),
            decreases self.edges.len() - i,
        {
            match &self.edges[i] {
                Some(edge) => {
                    if edge.filter.is_some() {
                        assert(self.present(i as int) && self.edge(i as int).filter.is_some());
                        return false;
                    }
                },
                None => {},
            }
            i += 1;
        }
        true
    }

    /// Sets the distinct-value estimate of the edge with the given id, if it
    /// is in the graph. Says whether it was.
    pub fn set_min_ndv(&mut self, id: EdgeId, min_ndv: u128) -> (found: bool)
        ensures
            found == old(self).present(id as int),
            found ==> final(self).edges@ == old(self).edges@.update(
                id as int,
                Some(HyperEdge { min_ndv, ..old(self).edge(id as int) }),
            ),
            !found ==> final(self).edges@ == old(self).edges@,
    {
        if id < self.edges.len() {
            let mut slot: Option<HyperEdge> = None;
            std::mem::swap(&mut self.edges[id], &mut slot);
            match slot {
                Some(edge) => {
                    let mut updated = Some(HyperEdge { min_ndv, ..edge });
                    std::mem::swap(&mut self.edges[id], &mut updated);
                    assert(self.edges@ =~= old(self).edges@.update(
                        id as int,
                        Some(HyperEdge { min_ndv, ..old(self).edge(id as int) }),
                    ));
                    true
                },
                None => {
                    assert(self.edges@ =~= old(self).edges@);
                    false
                },
            }
        } else {
            false
        }
    }
}


/// The tables in the output of each of `bases`.
pub open spec fn refs_of(bases: Seq<BaseRelation>) -> Seq<Seq<TableRef>> {
    Seq::new(bases.len(), |r: int| bases[r].output_refs@)
}

/// The cardinality of each of `bases`.
pub open spec fn cards_of(bases: Seq<BaseRelation>) -> Seq<u128> {
    Seq::new(bases.len(), |r: int| bases[r].cardinality)
}

/// Relation `r` is the first whose output, given by `refs`, has table `t`.
pub open spec fn is_owner(refs: Seq<Seq<TableRef>>, r: int, t: TableRef) -> bool {
    &&& 0 <= r < refs.len()
    &&& refs[r].contains(t)
    &&& forall|q: int| 0 <= q < r ==> !(#[trigger] refs[q]).contains(t)
}

/// Some relation's output, given by `refs`, has table `t`.
pub open spec fn has_owner(refs: Seq<Seq<TableRef>>, t: TableRef) -> bool {
    exists|r: int| 0 <= r < refs.len() && (#[trigger] refs[r]).contains(t)
}

/// The relations that `refs` belong to: for each table the first relation
/// that outputs it.
pub open spec fn rels_of(refs: Seq<Seq<TableRef>>, tables: Set<TableRef>) -> Set<RelId> {
    Set::new(
        |r: RelId| exists|t: TableRef| tables.contains(t) && #[trigger] is_owner(refs, r as int, t),
    )
}

/// The smallest cardinality among the first `n` of `rels`; the largest value
/// there is if there are none.
pub open spec fn min_cardinality(cards: Seq<u128>, rels: Seq<RelId>, n: nat) -> u128
    decreases n,
{
    if n == 0 || n > rels.len() {
        u128::MAX
    } else {
        let rest = min_cardinality(cards, rels, (n - 1) as nat);
        let own = if rels[n - 1] < cards.len() {
            cards[rels[n - 1] as int]
        } else {
            u128::MAX
        };
        if own < rest {
            own
        } else {
            rest
        }
    }
}

/// The edge's number of distinct values is the smallest cardinality among
/// the relations that it touches.
pub open spec fn ndv_is_min(cards: Seq<u128>, edge: HyperEdge) -> bool {
    exists|span: Seq<RelId>|
        is_ordered(span) && members(span) == edge.span() && edge.min_ndv == min_cardinality(
            cards,
            span,
            span.len(),
        )
}

/// The condition joins two relations: every table that it mentions belongs
/// to a relation, it mentions a table on each side, and its tables belong
/// to at least two relations.
pub open spec fn joins_two(refs: Seq<Seq<TableRef>>, condition: ReorderableCondition) -> bool {
    let left = condition.left_table_refs();
    let right = condition.right_table_refs();
    let span = rels_of(refs, left).union(rels_of(refs, right));
    &&& forall|t: TableRef| left.contains(t) || right.contains(t) ==> has_owner(refs, t)
    &&& exists|t: TableRef| left.contains(t)
    &&& exists|t: TableRef| right.contains(t)
    &&& exists|a: RelId, b: RelId| a != b && span.contains(a) && span.contains(b)
}

/// `edge` is the edge with id `id` for `condition`, over relations whose
/// outputs are `refs` and whose cardinalities are `cards`: it is well
/// formed, holds the condition, connects the relations that the tables on
/// the left of the condition belong to with those of the tables on the
/// right, knows the tables on either side, and counts as many distinct
/// values as the smallest of its relations has rows.
pub open spec fn is_edge_for(
    refs: Seq<Seq<TableRef>>,
    cards: Seq<u128>,
    edge: HyperEdge,
    id: int,
    condition: ReorderableCondition,
) -> bool {
    &&& edge.wf(id, refs.len())
    &&& edge.filter == Some(condition)
    &&& is_ordered(edge.left_rels@)
    &&& is_ordered(edge.right_rels@)
    &&& members(edge.left_rels@) == rels_of(refs, condition.left_table_refs())
    &&& members(edge.right_rels@) == rels_of(refs, condition.right_table_refs())
    &&& is_ordered(edge.left_refs@)
    &&& is_ordered(edge.right_refs@)
    &&& members(edge.left_refs@) == condition.left_table_refs()
    &&& members(edge.right_refs@) == condition.right_table_refs()
    &&& ndv_is_min(cards, edge)
}

/// The first relation that outputs table `t`.
fn find_owner(bases: &Vec<BaseRelation>, t: TableRef) -> (found: Option<RelId>)
    ensures
        found matches Some(r) ==> is_owner(refs_of(bases@), r as int, t),
        found.is_none() ==> !has_owner(refs_of(bases@), t),
{
    let mut r: usize = 0;
    while r < bases.len()
        invariant
            r <= bases.len(),
            forall|q: int| 0 <= q < r ==> !(#[trigger] refs_of(bases@)[q]).contains(t),
        decreases bases.len() - r,
    {
        if contains_id(&bases[r].output_refs, t) {
            return Some(r);
        }
        r += 1;
    }
    None
}

/// The relations that the tables `refs` belong to, or nothing if one of the
/// tables belongs to none.
fn relations_of(bases: &Vec<BaseRelation>, refs: &Vec<TableRef>) -> (found: Option<Vec<RelId>>)
    ensures
        found matches Some(rels) ==> is_ordered(rels@) && below(rels@, bases@.len() as int)
            && members(rels@) == rels_of(refs_of(bases@), members(refs@)),
        found.is_none() <==> exists|t: TableRef|
            members(refs@).contains(t) && !has_owner(refs_of(bases@), t),
{
    let mut rels: Vec<RelId> = Vec::new();
    let mut i: usize = 0;
    proof {
        lemma_members_empty(refs@.take(0));
        assert(members(rels@) =~= rels_of(refs_of(bases@), members(refs@.take(0))));
    }
    while i < refs.len()
        invariant
            i <= refs.len(),
            is_ordered(rels@),
            below(rels@, bases@.len() as int),
            members(rels@) == rels_of(refs_of(bases@), members(refs@.take(i as int))),
            forall|t: TableRef|
                members(refs@.take(i as int)).contains(t) ==> has_owner(refs_of(bases@), t),
        decreases refs.len() - i,
    {
        let t = refs[i];
        proof {
            lemma_members_take_next(refs@, i as int);
        }
        match find_owner(bases, t) {
            Some(r) => {
                let ghost before = rels@;
                insert_id(&mut rels, r);
                proof {
                    assert(has_owner(refs_of(bases@), t));
                    assert forall|k: int| 0 <= k < rels@.len() implies rels@[k] < bases@.len() by {
                        assert(rels@.contains(rels@[k]));
                        assert(members(rels@).contains(rels@[k]));
                        if rels@[k] != r {
                            assert(members(before).contains(rels@[k]));
                            let q = choose|q: int| 0 <= q < before.len() && before[q] == rels@[k];
                        }
                    }
                    let s0 = members(refs@.take(i as int));
                    let s1 = members(refs@.take(i + 1));
                    let owners0 = rels_of(refs_of(bases@), s0);
                    let owners1 = rels_of(refs_of(bases@), s1);
                    assert forall|x: RelId|
                        owners1.contains(x) == owners0.insert(r).contains(x) by {
                        if rels_of(refs_of(bases@), s1).contains(x) {
                            let u = choose|u: TableRef|
                                s1.contains(u) && #[trigger] is_owner(refs_of(bases@), x as int, u);
                            if u == t {
                                assert(x == r);
                            } else {
                                assert(s0.contains(u));
                            }
                        }
                        if rels_of(refs_of(bases@), s0).contains(x) {
                            let u = choose|u: TableRef|
                                s0.contains(u) && #[trigger] is_owner(refs_of(bases@), x as int, u);
                            assert(s1.contains(u));
                        }
                        if x == r {
                            assert(s1.contains(t) && is_owner(refs_of(bases@), r as int, t));
                        }
                    }
                    assert(members(rels@) =~= rels_of(refs_of(bases@), s1));
                }
            },
            None => {
                assert(refs@.contains(t));
                assert(members(refs@).contains(t) && !has_owner(refs_of(bases@), t));
                return None;
            },
        }
        i += 1;
    }
    assert(refs@.take(refs.len() as int) =~= refs@);
    Some(rels)
}

/// The smallest cardinality among `rels`.
fn smallest_cardinality(bases: &Vec<BaseRelation>, rels: &Vec<RelId>) -> (smallest: u128)
    ensures
        smallest == min_cardinality(cards_of(bases@), rels@, rels@.len()),
{
    let mut smallest: u128 = u128::MAX;
    let mut i: usize = 0;
    while i < rels.len()
        invariant
            i <= rels.len(),
            smallest == min_cardinality(cards_of(bases@), rels@, i as nat),
        decreases rels.len() - i,
    {
        let own = if rels[i] < bases.len() {
            bases[rels[i]].cardinality
        } else {
            u128::MAX
        };
        if own < smallest {
            smallest = own;
        }
        i += 1;
    }
    smallest
}

/// The edge for `condition`, if the condition joins two relations.
fn edge_for(bases: &Vec<BaseRelation>, id: EdgeId, condition: ReorderableCondition) -> (made:
    Option<HyperEdge>)
    ensures
        made.is_some() == joins_two(refs_of(bases@), condition),
        made matches Some(edge) ==> is_edge_for(
            refs_of(bases@),
            cards_of(bases@),
            edge,
            id as int,
            condition,
        ),
{
    let (left_refs, right_refs) = condition.get_left_right_table_refs();
    let ghost left = condition.left_table_refs();
    let ghost right = condition.right_table_refs();
    if left_refs.len() == 0 || right_refs.len() == 0 {
        proof {
            if left_refs.len() == 0 {
                lemma_members_empty(left_refs@);
            } else {
                lemma_members_empty(right_refs@);
            }
        }
        return None;
    }
    proof {
        assert(left_refs@.contains(left_refs@[0]));
        assert(left.contains(left_refs@[0]));
        assert(right_refs@.contains(right_refs@[0]));
        assert(right.contains(right_refs@[0]));
    }
    let left_rels = match relations_of(bases, &left_refs) {
        Some(rels) => rels,
        None => {
            return None;
        },
    };
    let right_rels = match relations_of(bases, &right_refs) {
        Some(rels) => rels,
        None => {
            return None;
        },
    };
    let span = union_ids(&left_rels, &right_rels);
    if span.len() < 2 {
        proof {
            let s = rels_of(refs_of(bases@), left).union(rels_of(refs_of(bases@), right));
            assert(members(span@) == s);
            assert forall|a: RelId, b: RelId| s.contains(a) && s.contains(b) implies a == b by {
                let i = choose|i: int| 0 <= i < span@.len() && span@[i] == a;
                let j = choose|j: int| 0 <= j < span@.len() && span@[j] == b;
            }
        }
        return None;
    }
    let min_ndv = smallest_cardinality(bases, &span);
    let edge = HyperEdge {
        id,
        left_rels,
        right_rels,
        left_refs,
        right_refs,
        filter: Some(condition),
        min_ndv,
    };
    proof {
        assert(span@.contains(span@[0]) && span@.contains(span@[1]));
        assert(members(span@).contains(span@[0]) && members(span@).contains(span@[1]));
        assert(span@[0] != span@[1]);
        assert(edge.span().contains(span@[0]) && edge.span().contains(span@[1]));
        assert(is_ordered(span@) && members(span@) == edge.span() && edge.min_ndv
            == min_cardinality(cards_of(bases@), span@, span@.len()));
        assert(edge.left_rels@.len() > 0) by {
            let t = left_refs@[0];
            assert(has_owner(refs_of(bases@), t));
            let r0 = choose|r: int|
                0 <= r < refs_of(bases@).len() && (#[trigger] refs_of(bases@)[r]).contains(t);
            lemma_least_owner(refs_of(bases@), t, r0);
            let r = choose|r: int| is_owner(refs_of(bases@), r, t);
            assert(0 <= r < bases.len());
            assert(is_owner(refs_of(bases@), (r as RelId) as int, t));
            assert(rels_of(refs_of(bases@), left).contains(r as RelId));
            if edge.left_rels@.len() == 0 {
                lemma_members_empty(edge.left_rels@);
            }
        }
        assert(edge.right_rels@.len() > 0) by {
            let t = right_refs@[0];
            assert(has_owner(refs_of(bases@), t));
            let r0 = choose|r: int|
                0 <= r < refs_of(bases@).len() && (#[trigger] refs_of(bases@)[r]).contains(t);
            lemma_least_owner(refs_of(bases@), t, r0);
            let r = choose|r: int| is_owner(refs_of(bases@), r, t);
            assert(0 <= r < bases.len());
            assert(is_owner(refs_of(bases@), (r as RelId) as int, t));
            assert(rels_of(refs_of(bases@), right).contains(r as RelId));
            if edge.right_rels@.len() == 0 {
                lemma_members_empty(edge.right_rels@);
            }
        }
    }
    Some(edge)
}

/// A table that some relation up to `r` outputs has a first such relation.
proof fn lemma_least_owner(refs: Seq<Seq<TableRef>>, t: TableRef, r: int)
    requires
        0 <= r < refs.len(),
        refs[r].contains(t),
    ensures
        exists|o: int| is_owner(refs, o, t),
    decreases r,
{
    if exists|q: int| 0 <= q < r && (#[trigger] refs[q]).contains(t) {
        let q = choose|q: int| 0 <= q < r && (#[trigger] refs[q]).contains(t);
        lemma_least_owner(refs, t, q);
    } else {
        assert(is_owner(refs, r, t));
    }
}

impl HyperEdges {
    /// The graph for `conditions` over the relations `base_relations`: one
    /// edge for each condition, in their order. An edge connects the
    /// relations that the left side of its condition mentions with those
    /// that the right side mentions, and takes as its number of distinct
    /// values the smallest cardinality among all of them.
    ///
    /// Fails on the first condition that does not join two relations.
    pub fn new(conditions: Vec<ReorderableCondition>, base_relations: &Vec<BaseRelation>) -> (made:
        Result<HyperEdges, JoinOrderError>)
        ensures
            made.is_ok() <==> forall|i: int|
                0 <= i < conditions@.len() ==> joins_two(
                    refs_of(base_relations@),
                    #[trigger] conditions@[i],
                ),
            made matches Err(e) ==> exists|i: int|
                0 <= i < conditions@.len() && e == (JoinOrderError::InvalidCondition {
                    index: i as usize,
                }) && !joins_two(refs_of(base_relations@), conditions@[i]) && forall|j: int|
                    0 <= j < i ==> joins_two(refs_of(base_relations@), #[trigger] conditions@[j]),
            made matches Ok(graph) ==> {
                &&& graph.wf(base_relations@.len())
                &&& graph.edges@.len() == conditions@.len()
                &&& forall|i: int|
                    0 <= i < conditions@.len() ==> graph.present(i) && is_edge_for(
                        refs_of(base_relations@),
                        cards_of(base_relations@),
                        #[trigger] graph.edge(i),
                        i,
                        conditions@[i],
                    )
            },
    {
        let ghost all = conditions@;
        let ghost refs = refs_of(base_relations@);
        let ghost cards = cards_of(base_relations@);
        let mut edges: Vec<Option<HyperEdge>> = Vec::new();
        for condition in it: conditions
            invariant
                it.seq() == all,
                refs == refs_of(base_relations@),
                cards == cards_of(base_relations@),
                edges@.len() == it.index(),
                forall|i: int| 0 <= i < edges@.len() ==> joins_two(refs, #[trigger] all[i]),
                forall|i: int|
                    0 <= i < edges@.len() ==> (#[trigger] edges@[i]).is_some() && is_edge_for(
                        refs,
                        cards,
                        edges@[i].unwrap(),
                        i,
                        all[i],
                    ),
        {
            let id = edges.len();
            match edge_for(base_relations, id, condition) {
                Some(edge) => {
                    edges.push(Some(edge));
                },
                None => {
                    return Err(JoinOrderError::InvalidCondition { index: id });
                },
            }
        }
        let graph = HyperEdges { edges };
        proof {
            assert forall|i: int| 0 <= i < all.len() implies graph.present(i) && is_edge_for(
                refs,
                cards,
                #[trigger] graph.edge(i),
                i,
                all[i],
            ) by {
                assert(graph.edges@[i].is_some());
            }
            assert forall|id: int| graph.present(id) implies (#[trigger] graph.edge(id)).wf(
                id,
                base_relations@.len(),
            ) by {
                assert(graph.edges@[id].is_some());
            }
        }
        Ok(graph)
    }
}

} // verus!
