//! The search: enumeration of connected subgraphs and their connected
//! complements, filling the memo with the cheapest plan for each.

use vstd::prelude::*;
use super::edge::{HyperEdges, NeighborEdge};
use super::error::JoinOrderError;
use super::graph::Graph;
use super::relation_set::{
    canonical, is_choice, lemma_canonical_of_ordered, sets_have, RelId, RelationSet,
};
use super::sorted_ids::{
    below, copy_ids, ids_below, is_ordered, lemma_members_empty, lemma_ordered_bounded_len,
    lemma_members_take_next, lemma_ordered_full, lemma_ordered_subset_len, lemma_range_seq,
    members, range_ids, range_seq, remove_id, union_ids,
};

verus! {

impl HyperEdges {
    /// The edge at `id` is in the graph under its own id and touches exactly
    /// the relations `a` and `b`.
    pub open spec fn links(self, id: int, a: RelId, b: RelId) -> bool {
        self.present(id) && self.edge(id).id == id && self.edge(id).span() == set![a, b]
    }

    /// An edge of the graph touches exactly the relations `a` and `b`.
    pub open spec fn linked(self, a: RelId, b: RelId) -> bool {
        exists|id: int| #[trigger] self.links(id, a, b)
    }

    /// Every two relations of the first `n` have an edge between just the two.
    pub open spec fn fully_connected(self, n: nat) -> bool {
        forall|a: RelId, b: RelId| a < n && b < n && a != b ==> #[trigger] self.linked(a, b)
    }

    /// In a well-formed graph every neighbor is a relation of the graph,
    /// outside the set and not excluded.
    pub proof fn lemma_neighbors_below(self, n: nat, set: Set<RelId>, exclude: Set<RelId>)
        requires
            self.wf(n),
        ensures
            forall|r: RelId| #[trigger]
                self.neighbors(set, exclude).contains(r) ==> r < n && !set.contains(r)
                    && !exclude.contains(r),
    {
        assert forall|r: RelId| #[trigger] self.neighbors(set, exclude).contains(r) implies r < n
            && !set.contains(r) && !exclude.contains(r) by {
            let id = choose|id: int|
                0 <= id < self.edges@.len() && self.present(id) && (#[trigger] self.edge(
                    id,
                )).touches(set) && self.edge(id).span().contains(r);
            let edge = self.edge(id);
            assert(edge.wf(id, n));
            if members(edge.left_rels@).contains(r) {
                let k = choose|k: int| 0 <= k < edge.left_rels@.len() && edge.left_rels@[k] == r;
            } else {
                let k = choose|k: int| 0 <= k < edge.right_rels@.len() && edge.right_rels@[k] == r;
            }
        }
    }

    /// An edge that joins a set with a single relation outside it makes that
    /// relation a neighbor of the set.
    pub proof fn lemma_connected_is_neighbor(self, set: Set<RelId>, r: RelId, exclude: Set<RelId>)
        requires
            self.connected(set, set![r]),
            !set.contains(r),
            !exclude.contains(r),
        ensures
            self.neighbors(set, exclude).contains(r),
    {
        let id = choose|id: int| #[trigger] self.joins_at(id, set, set![r]);
        let edge = self.edge(id);
        let x = choose|x: RelId| edge.span().contains(x) && set![r].contains(x);
        assert(x == r);
        assert(self.reaches(set, r, self.edges@.len() as int));
    }

    /// In a fully connected graph an edge joins every nonempty set with
    /// every relation outside it.
    pub proof fn lemma_fully_connected(self, n: nat, set: Set<RelId>, a: RelId, r: RelId)
        requires
            self.fully_connected(n),
            set.contains(a),
            !set.contains(r),
            a < n,
            r < n,
        ensures
            self.connected(set, set![r]),
            self.reaches(set, r, self.edges@.len() as int),
    {
        assert(self.linked(a, r));
        let id = choose|id: int| #[trigger] self.links(id, a, r);
        assert(self.links(id, a, r));
        let edge = self.edge(id);
        assert(edge.span().contains(a) && edge.span().contains(r));
        assert(edge.touches(set));
        assert(set![r].contains(r));
        assert(edge.touches(set![r]));
        assert(edge.span().subset_of(set.union(set![r])));
        assert(self.joins_at(id, set, set![r]));
    }
}

impl Graph {
    /// Relation `r` is paired with `set` when connected subgraphs are
    /// emitted for `set`: it comes after the first relation of `set`, is not
    /// in `set`, and an edge joins `set` with it.
    pub open spec fn pairs_with(self, set: Seq<RelId>, r: RelId) -> bool {
        &&& set.len() >= 1
        &&& r > set[0]
        &&& !members(set).contains(r)
        &&& self.hyper_edges.connected(members(set), set![r])
    }

    /// The pairs of `set` have been emitted by the time of `later`: unless
    /// `set` is all relations, the memo of `later` has a plan for `set`
    /// together with every relation that is paired with it.
    pub open spec fn emitted_for(self, later: Graph, set: Seq<RelId>) -> bool {
        set.len() != self.n() ==> forall|r: RelId| #[trigger]
            self.pairs_with(set, r) ==> later.best_plans.contains(
                RelationSet::spec_union(set, seq![r]),
            )
    }

    /// The pairs of the single relation `r` have been emitted by the time
    /// of `later`.
    pub open spec fn emitted_for_base(self, later: Graph, r: RelId) -> bool {
        self.emitted_for(later, seq![r])
    }

    /// Every union of `right` with neighbors that had a plan and is joined
    /// with `left` by an edge has a plan together with `left` in `later`.
    pub open spec fn complements_paired(
        self,
        later: Graph,
        left: Seq<RelId>,
        right: Seq<RelId>,
        pool: Seq<RelId>,
    ) -> bool {
        forall|chosen: Seq<RelId>| #[trigger]
            is_choice(chosen, pool) && self.best_plans.contains(
                RelationSet::spec_union(right, chosen),
            ) && self.hyper_edges.connected(
                members(left),
                members(RelationSet::spec_union(right, chosen)),
            ) ==> later.best_plans.contains(
                RelationSet::spec_union(left, RelationSet::spec_union(right, chosen)),
            )
    }

    /// What is left out when connected subgraphs are emitted for `set`: the
    /// relations before the first one of `set`, and those of `set`.
    pub open spec fn left_out(set: Seq<RelId>) -> Set<RelId> {
        ids_below(set[0] as int).union(members(set))
    }

    /// The neighbors of `set` that are visited when connected subgraphs are
    /// emitted for it.
    pub open spec fn visited(self, set: Seq<RelId>) -> Set<RelId> {
        self.hyper_edges.neighbors(members(set), Self::left_out(set))
    }

    /// What is left out when complements are grown out of the neighbor `r`
    /// of `set`: what is left out for `set`, and the neighbors of `set` up
    /// to `r`.
    pub open spec fn left_out_at(self, set: Seq<RelId>, r: RelId) -> Set<RelId> {
        Self::left_out(set).union(Set::new(|x: RelId| self.visited(set).contains(x) && x <= r))
    }

    /// The complements of `set` have been grown by the time of `later`:
    /// unless `set` is all relations, for each neighbor of `set` that is
    /// visited, every union of the neighbor with neighbors of its own that
    /// had a plan and is joined with `set` by an edge has a plan together
    /// with `set`.
    pub open spec fn complements_grown(self, later: Graph, set: Seq<RelId>) -> bool {
        set.len() != self.n() ==> forall|r: RelId| #[trigger]
            self.visited(set).contains(r) ==> self.complements_paired(
                later,
                set,
                seq![r],
                canonical(self.hyper_edges.neighbors(set![r], self.left_out_at(set, r))),
            )
    }

    /// Complements that are paired from a later point of the search on are
    /// paired from an earlier point on.
    proof fn lemma_complements_from_earlier(
        self,
        mid: Graph,
        later: Graph,
        left: Seq<RelId>,
        right: Seq<RelId>,
        pool: Seq<RelId>,
    )
        requires
            self.advances_to(mid),
            mid.complements_paired(later, left, right, pool),
        ensures
            self.complements_paired(later, left, right, pool),
    {
        assert forall|chosen: Seq<RelId>| #[trigger]
            is_choice(chosen, pool) && self.best_plans.contains(
                RelationSet::spec_union(right, chosen),
            ) && self.hyper_edges.connected(
                members(left),
                members(RelationSet::spec_union(right, chosen)),
            ) implies later.best_plans.contains(
            RelationSet::spec_union(left, RelationSet::spec_union(right, chosen)),
        ) by {
            assert(mid.best_plans.contains(RelationSet::spec_union(right, chosen)));
        }
    }

    /// The complement `rest` grows out of the neighbor `nb` of the single
    /// relation `r`: it is `nb` together with a choice of the relations
    /// that complements of `nb` are grown from.
    pub open spec fn grows_out(
        self,
        r: RelId,
        nb: RelId,
        chosen: Seq<RelId>,
        rest: Seq<RelId>,
    ) -> bool {
        &&& self.visited(seq![r]).contains(nb)
        &&& is_choice(
            chosen,
            canonical(self.hyper_edges.neighbors(set![nb], self.left_out_at(seq![r], nb))),
        )
        &&& rest == RelationSet::spec_union(seq![nb], chosen)
    }

    /// The set `key` is the relation `r` together with the complement that
    /// `chosen` makes with the neighbor `nb` of `r`, which is smaller than
    /// `key`, which an edge joins with `r`, and which is looked for from the
    /// relation `q` after `r`.
    pub open spec fn grows_to(
        self,
        r: RelId,
        nb: RelId,
        chosen: Seq<RelId>,
        q: RelId,
        key: Seq<RelId>,
    ) -> bool {
        let rest = RelationSet::spec_union(seq![nb], chosen);
        &&& self.grows_out(r, nb, chosen, rest)
        &&& rest.len() < key.len()
        &&& r < q
        &&& self.hyper_edges.connected(members(seq![r]), members(rest))
        &&& key == RelationSet::spec_union(seq![r], rest)
    }

    /// The set `key` is the relation `r` together with a later relation
    /// that an edge joins with it.
    pub open spec fn is_pair_of(self, r: RelId, key: Seq<RelId>) -> bool {
        exists|x: RelId|
            #![trigger self.pairs_with(seq![r], x)]
            self.pairs_with(seq![r], x) && key == RelationSet::spec_union(seq![r], seq![x])
    }

    /// The search is sure to reach `key` when it works on relation `r`:
    /// `key` is `r` alone, or `r` together with a later relation that an
    /// edge joins with it, or `r` together with a set that an edge joins
    /// with it, that grows out of a neighbor of `r`, and that the search is
    /// sure to reach when it works on a later relation.
    pub open spec fn reached_from(self, r: RelId, key: Seq<RelId>) -> bool
        decreases key.len(),
    {
        r < self.n() && (key == seq![r] || (self.n() >= 2 && (self.is_pair_of(r, key) || exists|
            nb: RelId,
            chosen: Seq<RelId>,
            q: RelId,
        |
            #![trigger self.grows_to(r, nb, chosen, q, key)]
            self.grows_to(r, nb, chosen, q, key) && RelationSet::spec_union(seq![nb], chosen).len()
                < key.len() && self.reached_from(q, RelationSet::spec_union(seq![nb], chosen)))))
    }

    /// The search is sure to reach the set of all relations.
    pub open spec fn reaches_all(self) -> bool {
        exists|r: RelId| #[trigger] self.reached_from(r, range_seq(self.n()))
    }

    /// Once the search has worked on relation `r`, the memo has a plan for
    /// every set that the search is sure to reach when it works on `r`.
    proof fn lemma_reached(self, entry: Graph, emitted: Graph, r: RelId, key: Seq<RelId>)
        requires
            self.advances_to(entry),
            self.n() == entry.n(),
            entry.wf(),
            entry.advances_to(emitted),
            entry.emitted_for(emitted, seq![r]),
            entry.complements_grown(emitted, seq![r]),
            forall|q: RelId, rest: Seq<RelId>|
                r < q && #[trigger] self.reached_from(q, rest) ==> entry.best_plans.contains(rest),
            self.reached_from(r, key),
        ensures
            emitted.best_plans.contains(key),
    {
        if key == seq![r] {
            assert(entry.has_base_plan(r));
        } else if self.is_pair_of(r, key) {
            let x = choose|x: RelId|
                #![trigger self.pairs_with(seq![r], x)]
                self.pairs_with(seq![r], x) && key == RelationSet::spec_union(seq![r], seq![x]);
            assert(entry.pairs_with(seq![r], x));
        } else {
            let (nb, chosen, q) = choose|nb: RelId, chosen: Seq<RelId>, q: RelId|
                #![trigger self.grows_to(r, nb, chosen, q, key)]
                self.grows_to(r, nb, chosen, q, key) && RelationSet::spec_union(
                    seq![nb],
                    chosen,
                ).len() < key.len() && self.reached_from(
                    q,
                    RelationSet::spec_union(seq![nb], chosen),
                );
            let rest = RelationSet::spec_union(seq![nb], chosen);
            assert(self.grows_to(r, nb, chosen, q, key));
            assert(self.reached_from(q, rest));
            assert(entry.best_plans.contains(rest));
            assert(entry.visited(seq![r]).contains(nb));
            assert(entry.left_out_at(seq![r], nb) =~= self.left_out_at(seq![r], nb));
            let pool = canonical(
                entry.hyper_edges.neighbors(set![nb], entry.left_out_at(seq![r], nb)),
            );
            assert(entry.complements_paired(emitted, seq![r], seq![nb], pool));
            assert(is_choice(chosen, pool));
        }
    }

    /// Complements that have been grown stay grown while the search goes
    /// on, and they have been grown from any earlier point of the search.
    proof fn lemma_complements_grown_stay(
        self,
        start: Graph,
        mid: Graph,
        later: Graph,
        set: Seq<RelId>,
    )
        requires
            start.advances_to(self),
            start.n() == self.n(),
            self.complements_grown(mid, set),
            mid.advances_to(later),
        ensures
            start.complements_grown(later, set),
    {
        if set.len() != self.n() {
            assert forall|r: RelId| #[trigger]
                start.visited(set).contains(r) implies start.complements_paired(
                later,
                set,
                seq![r],
                canonical(start.hyper_edges.neighbors(set![r], start.left_out_at(set, r))),
            ) by {
                assert(self.visited(set).contains(r));
                assert(start.left_out_at(set, r) =~= self.left_out_at(set, r));
                let pool = canonical(
                    self.hyper_edges.neighbors(set![r], self.left_out_at(set, r)),
                );
                self.lemma_complements_stay(mid, later, set, seq![r], pool);
                start.lemma_complements_from_earlier(self, later, set, seq![r], pool);
            }
        }
    }

    /// Every union of `set` with neighbors that had a plan has had its
    /// pairs emitted by the time of `later`.
    pub open spec fn unions_emitted(self, later: Graph, set: Seq<RelId>, pool: Seq<RelId>) -> bool {
        forall|chosen: Seq<RelId>| #[trigger]
            is_choice(chosen, pool) && self.best_plans.contains(
                RelationSet::spec_union(set, chosen),
            ) ==> self.emitted_for(later, RelationSet::spec_union(set, chosen))
    }

    /// Pairs that have been emitted stay emitted while the search goes on.
    proof fn lemma_emitted_stays(self, start: Graph, mid: Graph, later: Graph, set: Seq<RelId>)
        requires
            start.hyper_edges == self.hyper_edges,
            start.n() == self.n(),
            self.emitted_for(mid, set),
            mid.advances_to(later),
        ensures
            start.emitted_for(later, set),
    {
        if set.len() != self.n() {
            assert forall|r: RelId|
                #[trigger] start.pairs_with(set, r) implies later.best_plans.contains(
                RelationSet::spec_union(set, seq![r]),
            ) by {
                assert(self.pairs_with(set, r));
                assert(mid.best_plans.contains(RelationSet::spec_union(set, seq![r])));
            }
        }
    }

    /// The relations reachable from `set` over an edge, by increasing id,
    /// without those in `exclude`.
    fn neighbors_of(&self, set: &RelationSet, exclude: &Vec<RelId>) -> (neighbors: Vec<RelId>)
        requires
            self.hyper_edges.wf(self.n()),
        ensures
            is_ordered(neighbors@),
            below(neighbors@, self.n() as int),
            members(neighbors@) == self.hyper_edges.neighbors(set.rels(), members(exclude@)),
            members(neighbors@).disjoint(members(exclude@)),
            members(neighbors@).disjoint(set.rels()),
    {
        let neighbors = self.hyper_edges.find_neighbors(set, exclude);
        proof {
            self.hyper_edges.lemma_neighbors_below(self.n(), set.rels(), members(exclude@));
            assert forall|k: int| 0 <= k < neighbors@.len() implies neighbors@[k] < self.n() by {
                assert(neighbors@.contains(neighbors@[k]));
                assert(members(neighbors@).contains(neighbors@[k]));
            }
        }
        neighbors
    }

    /// Emits the pairs of `set` with each of its neighbors, and with the
    /// connected subgraphs that grow out of each neighbor: every union of
    /// a neighbor with neighbors of its own that has a plan and that an
    /// edge joins with `set`. The plan for a pair costs no more afterwards
    /// than the join of the two plans. Only plans for `set` together with
    /// more relations are made or replaced.
    ///
    /// Relations before the first one of `set` are left out, as are those of
    /// `set` itself: a pair is found from the side that holds its relation
    /// of lowest id. The neighbors are visited from the highest id down, and
    /// while a neighbor is visited the complements grown for it leave out
    /// the neighbors not yet visited.
    pub fn emit_connected_subgraphs(&mut self, set: &RelationSet) -> (result: Result<
        (),
        JoinOrderError,
    >)
        requires
            old(self).wf(),
            set.wf(),
            set@.len() >= 1,
            below(set@, old(self).n() as int),
            old(self).best_plans.contains(set@),
        ensures
            final(self).wf(),
            old(self).advances_to(*final(self)),
            result.is_ok(),
            old(self).emitted_for(*final(self), set@),
            old(self).pairs_paid(*final(self), set@),
            old(self).complements_grown(*final(self), set@),
            old(self).kept_but_above(*final(self), set@),
    {
        if set.relation_indices.len() == self.base_relations.len() {
            // Already at largest subgraph.
            return Ok(());
        }
        // Leave out all relations before this set, and those within it.
        let first = set.relation_indices[0];
        let before_first = range_ids(first);
        let mut exclude = union_ids(&before_first, &set.relation_indices);
        let ghost base_exclude = members(exclude@);
        proof {
            assert forall|k: int| 0 <= k < exclude@.len() implies exclude@[k] < self.n() by {
                let x = exclude@[k];
                assert(exclude@.contains(x));
                assert(members(exclude@).contains(x));
                if members(set@).contains(x) {
                    let q = choose|q: int| 0 <= q < set@.len() && set@[q] == x;
                } else {
                    assert(x < first);
                }
            }
        }
        let neighbors = self.neighbors_of(set, &exclude);
        // The neighbors are worked on below, so the complements leave them out.
        exclude = union_ids(&exclude, &neighbors);
        proof {
            assert(base_exclude == Self::left_out(set@));
            assert(members(neighbors@) == old(self).visited(set@));
            assert(neighbors@.take(neighbors@.len() as int) =~= neighbors@);
            assert forall|k: int| 0 <= k < exclude@.len() implies exclude@[k] < self.n() by {
                let x = exclude@[k];
                assert(exclude@.contains(x));
                assert(members(exclude@).contains(x));
                if members(neighbors@).contains(x) {
                    let q = choose|q: int| 0 <= q < neighbors@.len() && neighbors@[q] == x;
                } else {
                    assert(base_exclude.contains(x));
                    if members(set@).contains(x) {
                        let q = choose|q: int| 0 <= q < set@.len() && set@[q] == x;
                    } else {
                        assert(x < first);
                    }
                }
            }
            assert(old(self).advances_to(*self));
        }
        let mut i: usize = neighbors.len();
        while i > 0
            invariant
                i <= neighbors.len(),
                self.wf(),
                old(self).wf(),
                old(self).advances_to(*self),
                self.best_plans.contains(set@),
                set.wf(),
                set@.len() >= 1,
                below(set@, self.n() as int),
                is_ordered(neighbors@),
                below(neighbors@, self.n() as int),
                members(neighbors@).disjoint(set.rels()),
                is_ordered(exclude@),
                below(exclude@, self.n() as int),
                set.rels().subset_of(members(exclude@)),
                base_exclude == Self::left_out(set@),
                members(neighbors@) == old(self).visited(set@),
                members(neighbors@).disjoint(base_exclude),
                old(self).best_plans.contains(set@),
                old(self).kept_but_above(*self, set@),
                forall|j: int|
                    i <= j < neighbors@.len() ==> self.paired_at(
                        *old(self),
                        set@,
                        seq![#[trigger] neighbors@[j]],
                    ),
                members(exclude@) == base_exclude.union(members(neighbors@.take(i as int))),
                forall|j: int|
                    i <= j < neighbors@.len() ==> old(self).complements_paired(
                        *self,
                        set@,
                        seq![#[trigger] neighbors@[j]],
                        canonical(
                            old(self).hyper_edges.neighbors(
                                set![neighbors@[j]],
                                old(self).left_out_at(set@, neighbors@[j]),
                            ),
                        ),
                    ),
                forall|j: int|
                    i <= j < neighbors@.len() && self.hyper_edges.connected(
                        set.rels(),
                        set![#[trigger] neighbors@[j]],
                    ) ==> self.best_plans.contains(
                        RelationSet::spec_union(set@, seq![neighbors@[j]]),
                    ),
            decreases i,
        {
            i -= 1;
            let neighbor = neighbors[i];
            let ghost entry = *self;
            // Find edges between this set and the neighbor.
            let neighbor_set = RelationSet::base(neighbor);
            proof {
                assert(neighbors@.contains(neighbor));
                assert(members(neighbors@).contains(neighbor));
                assert(!set.rels().contains(neighbor));
                assert(neighbor_set.rels() =~= set![neighbor]) by {
                    assert forall|x: RelId| neighbor_set.rels().contains(x) == set![
                        neighbor,
                    ].contains(x) by {
                        if x == neighbor {
                            assert(neighbor_set@[0] == x);
                        }
                    }
                }
                assert(self.best_plans.contains(set@));
                assert(self.has_base_plan(neighbor));
            }
            let edges = self.hyper_edges.find_edges(set, &neighbor_set);
            if edges.len() > 0 {
                // We have a connection.
                let ghost joining = edges@;
                self.emit_pair(set, &neighbor_set, edges)?;
                proof {
                    old(self).lemma_pair_paid(entry, *self, set@, neighbor_set@, joining);
                }
            } else {
                proof {
                    if self.hyper_edges.connected(set.rels(), set![neighbor]) {
                        let id = choose|id: int| #[trigger]
                            self.hyper_edges.joins_at(id, set.rels(), set![neighbor]);
                        assert(self.hyper_edges.joins_at(id, set.rels(), neighbor_set.rels()));
                    }
                }
            }
            let ghost paired = *self;
            proof {
                assert(entry.advances_to(paired));
                old(self).lemma_advances_transitive(entry, paired);
                assert(self.best_plans.contains(set@));
                assert(paired.paired_at(*old(self), set@, seq![neighbor]));
            }
            // Grow the neighbor into larger complements.
            proof {
                lemma_members_take_next(neighbors@, i as int);
                let prefix = neighbors@.take(i + 1);
                assert(members(exclude@) =~= old(self).left_out_at(set@, neighbor)) by {
                    assert forall|x: RelId|
                        members(prefix).contains(x) == (members(neighbors@).contains(x) && x
                            <= neighbor) by {
                        if prefix.contains(x) {
                            let q = choose|q: int| 0 <= q < prefix.len() && prefix[q] == x;
                            assert(neighbors@[q] == x);
                            assert(neighbors@.contains(x));
                            if q < i {
                                assert(neighbors@[q] < neighbors@[i as int]);
                            }
                        }
                        if neighbors@.contains(x) && x <= neighbor {
                            let q = choose|q: int| 0 <= q < neighbors@.len() && neighbors@[q] == x;
                            if q > i {
                                assert(neighbors@[i as int] < neighbors@[q]);
                            }
                            assert(prefix[q] == x);
                        }
                    }
                }
            }
            let ghost pool = canonical(
                old(self).hyper_edges.neighbors(
                    set![neighbor],
                    old(self).left_out_at(set@, neighbor),
                ),
            );
            self.enumerate_connected_complement_rec(set, &neighbor_set, &exclude)?;
            proof {
                old(self).lemma_advances_transitive(paired, *self);
                entry.lemma_advances_transitive(paired, *self);
                assert(paired.complements_paired(*self, set@, seq![neighbor], pool));
                old(self).lemma_kept_on(paired, *self, set@);
                assert forall|j: int| i <= j < neighbors@.len() implies self.paired_at(
                    *old(self),
                    set@,
                    seq![#[trigger] neighbors@[j]],
                ) by {
                    if j == i {
                        paired.lemma_paired_stays(*self, *old(self), set@, seq![neighbors@[j]]);
                    } else {
                        entry.lemma_paired_stays(*self, *old(self), set@, seq![neighbors@[j]]);
                    }
                }
                old(self).lemma_complements_from_earlier(
                    paired,
                    *self,
                    set@,
                    seq![neighbor],
                    pool,
                );
                assert forall|j: int| i <= j < neighbors@.len() implies old(
                    self,
                ).complements_paired(
                    *self,
                    set@,
                    seq![#[trigger] neighbors@[j]],
                    canonical(
                        old(self).hyper_edges.neighbors(
                            set![neighbors@[j]],
                            old(self).left_out_at(set@, neighbors@[j]),
                        ),
                    ),
                ) by {
                    if j > i {
                        old(self).lemma_complements_stay(
                            entry,
                            *self,
                            set@,
                            seq![neighbors@[j]],
                            canonical(
                                old(self).hyper_edges.neighbors(
                                    set![neighbors@[j]],
                                    old(self).left_out_at(set@, neighbors@[j]),
                                ),
                            ),
                        );
                    }
                }
                assert(paired.best_plans.contains(set@));
                assert forall|j: int|
                    i <= j < neighbors@.len() && self.hyper_edges.connected(
                        set.rels(),
                        set![#[trigger] neighbors@[j]],
                    ) implies self.best_plans.contains(
                    RelationSet::spec_union(set@, seq![neighbors@[j]]),
                ) by {
                    let key = RelationSet::spec_union(set@, seq![neighbors@[j]]);
                    if j == i {
                        assert(paired.best_plans.contains(key));
                    } else {
                        assert(entry.best_plans.contains(key));
                    }
                }
            }
            remove_id(&mut exclude, neighbor);
            proof {
                assert forall|k: int| 0 <= k < exclude@.len() implies exclude@[k] < self.n() by {
                    let x = exclude@[k];
                    assert(exclude@.contains(x));
                    assert(members(exclude@).contains(x));
                }
                assert(!base_exclude.contains(neighbor));
                let shorter = neighbors@.take(i as int);
                assert(!members(shorter).contains(neighbor)) by {
                    if shorter.contains(neighbor) {
                        let q = choose|q: int| 0 <= q < shorter.len() && shorter[q] == neighbor;
                        assert(neighbors@[q] < neighbors@[i as int]);
                    }
                }
                assert(members(exclude@) =~= base_exclude.union(
                    members(neighbors@.take(i as int)),
                ));
            }
        }
        proof {
            assert forall|r: RelId|
                #[trigger] old(self).pairs_with(set@, r) implies self.best_plans.contains(
                RelationSet::spec_union(set@, seq![r]),
            ) by {
                assert(!base_exclude.contains(r)) by {
                    if members(before_first@).contains(r) {
                        assert(r < first);
                    }
                }
                self.hyper_edges.lemma_connected_is_neighbor(set.rels(), r, base_exclude);
                assert(members(neighbors@).contains(r));
                let j = choose|j: int| 0 <= j < neighbors@.len() && neighbors@[j] == r;
                assert(self.hyper_edges.connected(set.rels(), set![neighbors@[j]]));
            }
            assert forall|r: RelId| #[trigger] old(self).pairs_with(set@, r) implies self.paired_at(
                *old(self),
                set@,
                seq![r],
            ) by {
                assert(!base_exclude.contains(r)) by {
                    if members(before_first@).contains(r) {
                        assert(r < first);
                    }
                }
                self.hyper_edges.lemma_connected_is_neighbor(set.rels(), r, base_exclude);
                assert(members(neighbors@).contains(r));
                let j = choose|j: int| 0 <= j < neighbors@.len() && neighbors@[j] == r;
                assert(neighbors@[j] == r);
            }
            assert forall|r: RelId| #[trigger]
                old(self).visited(set@).contains(r) implies old(self).complements_paired(
                *self,
                set@,
                seq![r],
                canonical(
                    old(self).hyper_edges.neighbors(set![r], old(self).left_out_at(set@, r)),
                ),
            ) by {
                assert(members(neighbors@).contains(r));
                let j = choose|j: int| 0 <= j < neighbors@.len() && neighbors@[j] == r;
                assert(neighbors@[j] == r);
            }
        }
        Ok(())
    }

    /// Grows the right side of a pair: for every nonempty set of neighbors of
    /// `right`, the union with `right` is paired with `left` if it has a plan
    /// and an edge joins the two. Then the same is done from each of the
    /// unions, with the neighbors just visited left out. The plan for a
    /// pair costs no more afterwards than the join of the two plans. Only
    /// plans for `left` together with more relations are made or replaced.
    pub fn enumerate_connected_complement_rec(
        &mut self,
        left: &RelationSet,
        right: &RelationSet,
        exclude: &Vec<RelId>,
    ) -> (result: Result<(), JoinOrderError>)
        requires
            old(self).wf(),
            left.wf(),
            right.wf(),
            below(right@, old(self).n() as int),
            old(self).best_plans.contains(left@),
            is_ordered(exclude@),
            below(exclude@, old(self).n() as int),
            left.rels().subset_of(members(exclude@)),
            left.rels().disjoint(right.rels()),
        ensures
            final(self).wf(),
            old(self).advances_to(*final(self)),
            result.is_ok(),
            old(self).complements_paired(
                *final(self),
                left@,
                right@,
                super::relation_set::canonical(
                    old(self).hyper_edges.neighbors(right.rels(), members(exclude@)),
                ),
            ),
            old(self).complements_paid(
                *final(self),
                left@,
                right@,
                super::relation_set::canonical(
                    old(self).hyper_edges.neighbors(right.rels(), members(exclude@)),
                ),
            ),
            old(self).kept_but_above(*final(self), left@),
        decreases old(self).n() - exclude@.len(),
    {
        let neighbors = self.neighbors_of(right, exclude);
        proof {
            lemma_canonical_of_ordered(neighbors@);
            assert(left@.len() >= 1) by {
                reveal(Graph::entry_ok);
                assert(self.entry_ok(self.best_plans.entry(left@)));
            }
        }
        if neighbors.len() == 0 {
            proof {
                assert forall|chosen: Seq<RelId>| !is_choice(chosen, neighbors@) by {
                    if is_choice(chosen, neighbors@) {
                        assert(chosen.contains(chosen[0]));
                        assert(members(chosen).contains(chosen[0]));
                        assert(neighbors@.contains(chosen[0]));
                    }
                }
            }
            return Ok(());
        }
        let neighbor_sets = RelationSet::get_all_neighbor_sets(copy_ids(&neighbors));
        let mut combined_sets: Vec<RelationSet> = Vec::new();
        let mut k: usize = 0;
        while k < neighbor_sets.len()
            invariant
                k <= neighbor_sets.len(),
                self.wf(),
                old(self).advances_to(*self),
                left.wf(),
                right.wf(),
                below(right@, self.n() as int),
                self.best_plans.contains(left@),
                below(neighbors@, self.n() as int),
                members(neighbors@).disjoint(members(exclude@)),
                left.rels().subset_of(members(exclude@)),
                left.rels().disjoint(right.rels()),
                forall|i: int|
                    0 <= i < neighbor_sets@.len() ==> is_choice(
                        (#[trigger] neighbor_sets@[i])@,
                        neighbors@,
                    ),
                forall|s: Seq<usize>| #[trigger]
                    is_choice(s, neighbors@) ==> sets_have(neighbor_sets@, s),
                combined_sets@.len() == k,
                forall|j: int|
                    0 <= j < k ==> (#[trigger] combined_sets@[j]).wf() && below(
                        combined_sets@[j]@,
                        self.n() as int,
                    ) && left.rels().disjoint(combined_sets@[j].rels()),
                forall|j: int|
                    0 <= j < k ==> (#[trigger] combined_sets@[j])@ == RelationSet::spec_union(
                        right@,
                        neighbor_sets@[j]@,
                    ) && self.paired_at(*old(self), left@, combined_sets@[j]@),
                old(self).kept_but_above(*self, left@),
                old(self).best_plans.contains(left@),
                left@.len() >= 1,
            decreases neighbor_sets.len() - k,
        {
            let combined = RelationSet::union(right, &neighbor_sets[k]);
            proof {
                let chosen = neighbor_sets@[k as int];
                assert(is_choice(chosen@, neighbors@));
                assert forall|q: int| 0 <= q < combined@.len() implies combined@[q] < self.n() by {
                    let x = combined@[q];
                    assert(combined@.contains(x));
                    assert(combined.rels().contains(x));
                    if right.rels().contains(x) {
                        let p = choose|p: int| 0 <= p < right@.len() && right@[p] == x;
                    } else {
                        assert(members(neighbors@).contains(x));
                        let p = choose|p: int| 0 <= p < neighbors@.len() && neighbors@[p] == x;
                    }
                }
                assert(left.rels().disjoint(combined.rels()));
            }
            let ghost entry = *self;
            if self.best_plans.contains_key(&combined) {
                let edges = self.hyper_edges.find_edges(left, &combined);
                if edges.len() > 0 {
                    let ghost joining = edges@;
                    self.emit_pair(left, &combined, edges)?;
                    proof {
                        old(self).lemma_advances_transitive(entry, *self);
                        let chosen = neighbor_sets@[k as int]@;
                        super::relation_set::lemma_union_members(right@, chosen);
                        assert(chosen.contains(chosen[0]));
                        assert(members(chosen).contains(chosen[0]));
                        assert(members(combined@).contains(chosen[0]));
                        old(self).lemma_pair_paid(entry, *self, left@, combined@, joining);
                    }
                } else {
                    proof {
                        if self.hyper_edges.connected(left.rels(), combined.rels()) {
                            let id = choose|id: int| #[trigger]
                                self.hyper_edges.joins_at(id, left.rels(), combined.rels());
                        }
                    }
                }
            }
            proof {
                assert(self.paired_at(*old(self), left@, combined@));
                assert forall|j: int| 0 <= j < k implies self.paired_at(
                    *old(self),
                    left@,
                    (#[trigger] combined_sets@[j])@,
                ) by {
                    entry.lemma_paired_stays(*self, *old(self), left@, combined_sets@[j]@);
                }
            }
            combined_sets.push(combined);
            k += 1;
        }
        let ghost paired = *self;
        proof {
            old(self).lemma_complements_paired(
                paired,
                left@,
                right@,
                neighbors@,
                neighbor_sets@,
                combined_sets@,
            );
            old(self).lemma_complements_paid(
                paired,
                left@,
                right@,
                neighbors@,
                neighbor_sets@,
                combined_sets@,
            );
        }
        // Leave out the neighbors just visited.
        let wider = union_ids(exclude, &neighbors);
        proof {
            assert forall|q: int| 0 <= q < wider@.len() implies wider@[q] < self.n() by {
                let x = wider@[q];
                assert(wider@.contains(x));
                assert(members(wider@).contains(x));
                if members(exclude@).contains(x) {
                    let p = choose|p: int| 0 <= p < exclude@.len() && exclude@[p] == x;
                } else {
                    let p = choose|p: int| 0 <= p < neighbors@.len() && neighbors@[p] == x;
                }
            }
            assert(members(exclude@).subset_of(members(wider@)));
            assert(neighbors@.contains(neighbors@[0]));
            assert(members(neighbors@).contains(neighbors@[0]));
            assert(members(wider@).contains(neighbors@[0]));
            assert(members(exclude@) != members(wider@));
            lemma_ordered_subset_len(exclude@, wider@);
            lemma_ordered_bounded_len(wider@, self.n() as int);
        }
        // Recurse into the combined sets.
        let mut c: usize = 0;
        while c < combined_sets.len()
            invariant
                c <= combined_sets.len(),
                self.wf(),
                old(self).advances_to(*self),
                paired.advances_to(*self),
                old(self).kept_but_above(*self, left@),
                left.wf(),
                self.best_plans.contains(left@),
                is_ordered(wider@),
                below(wider@, self.n() as int),
                wider@.len() > exclude@.len(),
                wider@.len() <= self.n(),
                left.rels().subset_of(members(wider@)),
                forall|j: int|
                    0 <= j < combined_sets@.len() ==> (#[trigger] combined_sets@[j]).wf() && below(
                        combined_sets@[j]@,
                        self.n() as int,
                    ) && left.rels().disjoint(combined_sets@[j].rels()),
            decreases combined_sets.len() - c,
        {
            let ghost entry = *self;
            self.enumerate_connected_complement_rec(left, &combined_sets[c], &wider)?;
            proof {
                old(self).lemma_advances_transitive(entry, *self);
                paired.lemma_advances_transitive(entry, *self);
                old(self).lemma_kept_on(entry, *self, left@);
            }
            c += 1;
        }
        proof {
            old(self).lemma_complements_stay(paired, *self, left@, right@, neighbors@);
            old(self).lemma_complements_paid_stay(paired, *self, left@, right@, neighbors@);
        }
        Ok(())
    }

    /// If `combined` had a plan in `start` and an edge joins it with `left`,
    /// the two have a plan together, which costs no more than the join of
    /// the plans that the two had in `start`.
    pub open spec fn paired_at(self, start: Graph, left: Seq<RelId>, combined: Seq<RelId>) -> bool {
        start.best_plans.contains(combined) && start.hyper_edges.connected(
            members(left),
            members(combined),
        ) ==> self.best_plans.contains(RelationSet::spec_union(left, combined))
            && self.best_plans.entry(RelationSet::spec_union(left, combined)).cost
            <= start.pair_cost(left, combined)
    }

    /// Every union of `right` with neighbors that had a plan and is joined
    /// with `left` by an edge has a plan together with `left` in `later`,
    /// which costs no more than the join of the plans that the two had.
    pub open spec fn complements_paid(
        self,
        later: Graph,
        left: Seq<RelId>,
        right: Seq<RelId>,
        pool: Seq<RelId>,
    ) -> bool {
        forall|chosen: Seq<RelId>| #[trigger]
            is_choice(chosen, pool) ==> later.paired_at(
                self,
                left,
                RelationSet::spec_union(right, chosen),
            )
    }

    /// The pairs of `set` have been emitted, each at a cost no higher than
    /// that of joining the plans the two had: unless `set` is all relations,
    /// the memo of `later` has such a plan for `set` together with every
    /// relation that is paired with it.
    pub open spec fn pairs_paid(self, later: Graph, set: Seq<RelId>) -> bool {
        set.len() != self.n() ==> forall|r: RelId| #[trigger]
            self.pairs_with(set, r) ==> later.paired_at(self, set, seq![r])
    }

    /// What is kept from a first point of the search to a second and from
    /// there to a third is kept from the first to the third.
    proof fn lemma_kept_on(self, mid: Graph, later: Graph, set: Seq<RelId>)
        requires
            self.kept_but_above(mid, set),
            mid.kept_but_above(later, set),
        ensures
            self.kept_but_above(later, set),
    {
        assert forall|key: Seq<usize>| #[trigger]
            self.best_plans.contains(key) && (key == set || !members(set).subset_of(
                members(key),
            )) implies later.best_plans.contains(key) && later.best_plans.entry(key)
            == self.best_plans.entry(key) by {
            assert(mid.best_plans.contains(key));
        }
    }

    /// Emitting the pair of `left` with `combined` leaves the plans below
    /// alone and makes the plan for the two cost no more than the join of
    /// the plans they had at the start.
    proof fn lemma_pair_paid(
        self,
        entry: Graph,
        after: Graph,
        left: Seq<RelId>,
        combined: Seq<RelId>,
        edges: Seq<NeighborEdge>,
    )
        requires
            self.advances_to(entry),
            self.kept_but_above(entry, left),
            is_ordered(left),
            is_ordered(combined),
            left.len() >= 1,
            combined.len() >= 1,
            members(left).disjoint(members(combined)),
            self.best_plans.contains(left),
            entry.edges_between(edges, members(left), members(combined)),
            entry.advances_to(after),
            after.best_plans.contains(RelationSet::spec_union(left, combined)),
            after.best_plans.entry(RelationSet::spec_union(left, combined)).cost
                <= entry.pair_cost(left, combined),
            forall|other: Seq<usize>|
                other != RelationSet::spec_union(left, combined) && entry.best_plans.contains(
                    other,
                ) ==> (#[trigger] after.best_plans.entry(other)) == entry.best_plans.entry(other),
        ensures
            after.paired_at(self, left, combined),
            self.kept_but_above(after, left),
    {
        let key = RelationSet::spec_union(left, combined);
        super::relation_set::lemma_union_members(left, combined);
        let x = combined[0];
        assert(combined.contains(x));
        assert(members(combined).contains(x));
        assert(members(key).contains(x));
        assert(!members(left).contains(x));
        let y = left[0];
        assert(left.contains(y));
        assert(members(left).contains(y));
        assert(!members(combined).contains(y));
        assert(key != left);
        assert(members(left).subset_of(members(key)));
        assert forall|other: Seq<usize>| #[trigger]
            self.best_plans.contains(other) && (other == left || !members(left).subset_of(
                members(other),
            )) implies after.best_plans.contains(other) && after.best_plans.entry(other)
            == self.best_plans.entry(other) by {
            assert(entry.best_plans.contains(other));
            assert(other != key);
        }
        if self.best_plans.contains(combined) {
            assert(entry.best_plans.entry(left) == self.best_plans.entry(left));
            assert(entry.best_plans.entry(combined) == self.best_plans.entry(combined));
            let l = self.best_plans.entry(left);
            let r = self.best_plans.entry(combined);
            assert(entry.fitting(l) =~= self.fitting(l));
            assert(entry.fitting(r) =~= self.fitting(r));
            assert(self.edges_between(edges, members(left), members(combined)));
            self.lemma_edges_between_unique(edges, edges, members(left), members(combined));
            entry.lemma_edges_between_unique(edges, edges, members(left), members(combined));
            assert(entry.pair_cost(left, combined) == self.pair_cost(left, combined));
        }
    }

    /// What is paired stays paired while the search goes on.
    proof fn lemma_paired_stays(
        self,
        later: Graph,
        start: Graph,
        left: Seq<RelId>,
        combined: Seq<RelId>,
    )
        requires
            self.paired_at(start, left, combined),
            self.advances_to(later),
        ensures
            later.paired_at(start, left, combined),
    {
        if start.best_plans.contains(combined) && start.hyper_edges.connected(
            members(left),
            members(combined),
        ) {
            assert(self.best_plans.contains(RelationSet::spec_union(left, combined)));
        }
    }

    /// Once every union of `right` with a set of neighbors has had its
    /// turn, all that were to be paired with `left` are, at their cost.
    proof fn lemma_complements_paid(
        self,
        later: Graph,
        left: Seq<RelId>,
        right: Seq<RelId>,
        pool: Seq<RelId>,
        sets: Seq<RelationSet>,
        combined: Seq<RelationSet>,
    )
        requires
            sets.len() == combined.len(),
            forall|chosen: Seq<usize>|
                #[trigger] is_choice(chosen, pool) ==> sets_have(sets, chosen),
            forall|j: int|
                0 <= j < combined.len() ==> (#[trigger] combined[j])@ == RelationSet::spec_union(
                    right,
                    sets[j]@,
                ) && later.paired_at(self, left, combined[j]@),
        ensures
            self.complements_paid(later, left, right, pool),
    {
        assert forall|chosen: Seq<RelId>| #[trigger]
            is_choice(chosen, pool) implies later.paired_at(
            self,
            left,
            RelationSet::spec_union(right, chosen),
        ) by {
            assert(sets_have(sets, chosen));
            let j = choose|j: int| 0 <= j < sets.len() && (#[trigger] sets[j])@ == chosen;
            assert(later.paired_at(self, left, combined[j]@));
        }
    }

    /// Complements that are paired at their cost stay so while the search
    /// goes on.
    proof fn lemma_complements_paid_stay(
        self,
        mid: Graph,
        later: Graph,
        left: Seq<RelId>,
        right: Seq<RelId>,
        pool: Seq<RelId>,
    )
        requires
            self.complements_paid(mid, left, right, pool),
            mid.advances_to(later),
        ensures
            self.complements_paid(later, left, right, pool),
    {
        assert forall|chosen: Seq<RelId>| #[trigger]
            is_choice(chosen, pool) implies later.paired_at(
            self,
            left,
            RelationSet::spec_union(right, chosen),
        ) by {
            mid.lemma_paired_stays(later, self, left, RelationSet::spec_union(right, chosen));
        }
    }

    /// Once every union of `right` with a set of neighbors has had its
    /// turn, all that were to be paired with `left` are.
    proof fn lemma_complements_paired(
        self,
        later: Graph,
        left: Seq<RelId>,
        right: Seq<RelId>,
        pool: Seq<RelId>,
        sets: Seq<RelationSet>,
        combined: Seq<RelationSet>,
    )
        requires
            sets.len() == combined.len(),
            forall|chosen: Seq<usize>|
                #[trigger] is_choice(chosen, pool) ==> sets_have(sets, chosen),
            forall|j: int|
                0 <= j < combined.len() ==> (#[trigger] combined[j])@ == RelationSet::spec_union(
                    right,
                    sets[j]@,
                ) && later.paired_at(self, left, combined[j]@),
        ensures
            self.complements_paired(later, left, right, pool),
    {
        assert forall|chosen: Seq<RelId>| #[trigger]
            is_choice(chosen, pool) && self.best_plans.contains(
                RelationSet::spec_union(right, chosen),
            ) && self.hyper_edges.connected(
                members(left),
                members(RelationSet::spec_union(right, chosen)),
            ) implies later.best_plans.contains(
            RelationSet::spec_union(left, RelationSet::spec_union(right, chosen)),
        ) by {
            assert(sets_have(sets, chosen));
            let j = choose|j: int| 0 <= j < sets.len() && (#[trigger] sets[j])@ == chosen;
            assert(later.paired_at(self, left, combined[j]@));
        }
    }

    /// Complements that are paired stay paired while the search goes on.
    proof fn lemma_complements_stay(
        self,
        mid: Graph,
        later: Graph,
        left: Seq<RelId>,
        right: Seq<RelId>,
        pool: Seq<RelId>,
    )
        requires
            self.complements_paired(mid, left, right, pool),
            mid.advances_to(later),
        ensures
            self.complements_paired(later, left, right, pool),
    {
        assert forall|chosen: Seq<RelId>| #[trigger]
            is_choice(chosen, pool) && self.best_plans.contains(
                RelationSet::spec_union(right, chosen),
            ) && self.hyper_edges.connected(
                members(left),
                members(RelationSet::spec_union(right, chosen)),
            ) implies later.best_plans.contains(
            RelationSet::spec_union(left, RelationSet::spec_union(right, chosen)),
        ) by {
            assert(mid.best_plans.contains(
                RelationSet::spec_union(left, RelationSet::spec_union(right, chosen)),
            ));
        }
    }
}


impl Graph {
    /// The set `set` together with the relations `chosen` has a plan, and so
    /// has that set with any one more relation of `pool`.
    pub open spec fn grown(self, set: Seq<RelId>, chosen: Seq<RelId>, pool: Seq<RelId>) -> bool {
        let with_chosen = RelationSet::spec_union(set, chosen);
        &&& self.best_plans.contains(with_chosen)
        &&& forall|r: RelId|
            members(pool).contains(r) && !members(chosen).contains(r)
                ==> self.best_plans.contains(
                    #[trigger] RelationSet::spec_union(with_chosen, seq![r]),
                )
    }

    /// The search from `set` is bound to reach the set with all neighbors:
    /// the graph is fully connected, `set` has a plan, and every neighbor
    /// comes after the first relation of `set` and has a plan together with
    /// `set`.
    pub open spec fn grows_fully(self, set: RelationSet, exclude: Seq<RelId>) -> bool {
        let neighbors = self.hyper_edges.neighbors(set.rels(), members(exclude));
        &&& self.hyper_edges.fully_connected(self.n())
        &&& self.best_plans.contains(set@)
        &&& forall|r: RelId| #[trigger]
            neighbors.contains(r) ==> r > set@[0] && self.best_plans.contains(
                RelationSet::spec_union(set@, seq![r]),
            )
    }

    /// What has grown stays grown while the search goes on.
    proof fn lemma_grown_stays(
        self,
        later: Graph,
        set: Seq<RelId>,
        chosen: Seq<RelId>,
        pool: Seq<RelId>,
    )
        requires
            self.grown(set, chosen, pool),
            self.advances_to(later),
        ensures
            later.grown(set, chosen, pool),
    {
        let with_chosen = RelationSet::spec_union(set, chosen);
        assert(self.best_plans.contains(with_chosen));
        assert forall|r: RelId|
            members(pool).contains(r) && !members(chosen).contains(r)
                implies later.best_plans.contains(
            #[trigger] RelationSet::spec_union(with_chosen, seq![r]),
        ) by {
            assert(self.best_plans.contains(RelationSet::spec_union(with_chosen, seq![r])));
        }
    }

    /// The union of `set` with the next set of neighbors has a plan: from
    /// the start if the set is a single neighbor, else from the union with
    /// the set without its last neighbor, which came earlier.
    proof fn lemma_next_union_has_plan(
        self,
        start: Graph,
        set: Seq<RelId>,
        pool: Seq<RelId>,
        sets: Seq<RelationSet>,
        k: int,
    )
        requires
            start.advances_to(self),
            0 <= k < sets.len(),
            forall|r: RelId| #[trigger]
                members(pool).contains(r) ==> start.best_plans.contains(
                    RelationSet::spec_union(set, seq![r]),
                ),
            forall|i: int| 0 <= i < sets.len() ==> is_choice((#[trigger] sets[i])@, pool),
            forall|i: int, j: int| 0 <= i < j < sets.len() ==> sets[i]@.len() <= sets[j]@.len(),
            forall|s: Seq<usize>| #[trigger] is_choice(s, pool) ==> sets_have(sets, s),
            forall|j: int| 0 <= j < k ==> self.grown(set, (#[trigger] sets[j])@, pool),
        ensures
            self.best_plans.contains(RelationSet::spec_union(set, sets[k]@)),
    {
        let chosen = sets[k]@;
        assert(is_choice(chosen, pool));
        if chosen.len() == 1 {
            let r = chosen[0];
            assert(chosen.contains(r));
            assert(members(chosen).contains(r));
            assert(members(pool).contains(r));
            assert(chosen =~= seq![r]);
            assert(start.best_plans.contains(RelationSet::spec_union(set, seq![r])));
        } else {
            super::relation_set::lemma_choice_parts(chosen, pool);
            let d = chosen.drop_last();
            let last = chosen.last();
            assert(is_choice(d, pool));
            assert(sets_have(sets, d));
            let j = choose|j: int| 0 <= j < sets.len() && (#[trigger] sets[j])@ == d;
            assert(j < k) by {
                if j > k {
                    assert(sets[k]@.len() <= sets[j]@.len());
                }
            }
            assert(self.grown(set, sets[j]@, pool));
            assert(!members(d).contains(last)) by {
                if d.contains(last) {
                    let p = choose|p: int| 0 <= p < d.len() && d[p] == last;
                    assert(chosen[p] < chosen[chosen.len() - 1]);
                }
            }
            let with_d = RelationSet::spec_union(set, d);
            assert(self.best_plans.contains(RelationSet::spec_union(with_d, seq![last])));
            super::relation_set::lemma_union_members(set, d);
            assert(members(with_d).union(members(seq![last])) =~= members(set).union(
                members(chosen),
            )) by {
                assert forall|y: usize|
                    members(with_d).union(members(seq![last])).contains(y) == members(set).union(
                        members(chosen),
                    ).contains(y) by {
                    if seq![last].contains(y) {
                        assert(chosen[chosen.len() - 1] == y);
                    }
                    if d.contains(y) {
                        let p = choose|p: int| 0 <= p < d.len() && d[p] == y;
                        assert(chosen[p] == y);
                    }
                    if chosen.contains(y) {
                        let p = choose|p: int| 0 <= p < chosen.len() && chosen[p] == y;
                        if p < d.len() {
                            assert(d[p] == y);
                        } else {
                            assert(seq![last][0] == y);
                        }
                    }
                }
            }
        }
    }

    /// Once the pairs of a union have been emitted on a fully connected
    /// graph, the union has grown: it has a plan together with every
    /// neighbor not yet in it.
    proof fn lemma_grown_after_emit(
        self,
        entry: Graph,
        set: RelationSet,
        combined: RelationSet,
        chosen: Seq<RelId>,
        pool: Seq<RelId>,
    )
        requires
            entry.advances_to(self),
            entry.hyper_edges.fully_connected(entry.n()),
            entry.n() <= usize::MAX,
            set.wf(),
            set@.len() >= 1,
            below(set@, entry.n() as int),
            combined.wf(),
            below(combined@, entry.n() as int),
            combined@ == RelationSet::spec_union(set@, chosen),
            combined.rels() == set.rels().union(members(chosen)),
            below(pool, entry.n() as int),
            members(pool).disjoint(set.rels()),
            forall|r: RelId| #[trigger] members(pool).contains(r) ==> r > set@[0],
            self.best_plans.contains(combined@),
            entry.emitted_for(self, combined@),
        ensures
            self.grown(set@, chosen, pool),
    {
        assert forall|r: RelId|
            members(pool).contains(r) && !members(chosen).contains(r)
                implies self.best_plans.contains(
            #[trigger] RelationSet::spec_union(combined@, seq![r]),
        ) by {
            let p = choose|p: int| 0 <= p < pool.len() && pool[p] == r;
            assert(r < entry.n());
            assert(!combined.rels().contains(r));
            assert(set@.contains(set@[0]));
            assert(set.rels().contains(set@[0]));
            assert(combined.rels().contains(set@[0]));
            let q = choose|q: int| 0 <= q < combined@.len() && combined@[q] == set@[0];
            assert(combined@[0] <= set@[0]);
            assert(r > set@[0]);
            entry.hyper_edges.lemma_fully_connected(entry.n(), combined.rels(), set@[0], r);
            assert(entry.pairs_with(combined@, r));
            if combined@.len() == entry.n() {
                lemma_ordered_full(combined@, entry.n() as int);
                assert(ids_below(entry.n() as int).contains(r));
            }
        }
    }

    /// Grows `set` by every nonempty set of its neighbors: each union that
    /// has a plan gets its pairs emitted. Then the same is done from each of
    /// the unions, with the neighbors just visited left out.
    ///
    /// Smaller sets of neighbors come first, so that a union has its plan, if
    /// it is to have one, from a smaller union before its turn comes.
    pub fn enumerate_connected_subgraphs_rec(
        &mut self,
        set: &RelationSet,
        exclude: &Vec<RelId>,
    ) -> (result: Result<(), JoinOrderError>)
        requires
            old(self).wf(),
            set.wf(),
            set@.len() >= 1,
            below(set@, old(self).n() as int),
            is_ordered(exclude@),
            below(exclude@, old(self).n() as int),
        ensures
            final(self).wf(),
            old(self).advances_to(*final(self)),
            result.is_ok(),
            old(self).unions_emitted(
                *final(self),
                set@,
                super::relation_set::canonical(
                    old(self).hyper_edges.neighbors(set.rels(), members(exclude@)),
                ),
            ),
            old(self).grows_fully(*set, exclude@) ==> final(self).best_plans.contains(
                RelationSet::spec_union(
                    set@,
                    super::relation_set::canonical(
                        old(self).hyper_edges.neighbors(set.rels(), members(exclude@)),
                    ),
                ),
            ),
        decreases old(self).n() - exclude@.len(),
    {
        let ghost hyp = old(self).grows_fully(*set, exclude@);
        let neighbors = self.neighbors_of(set, exclude);
        proof {
            lemma_canonical_of_ordered(neighbors@);
            assert(old(self).advances_to(*self));
        }
        if neighbors.len() == 0 {
            proof {
                assert forall|chosen: Seq<RelId>| !is_choice(chosen, neighbors@) by {
                    if is_choice(chosen, neighbors@) {
                        assert(chosen.contains(chosen[0]));
                        assert(members(chosen).contains(chosen[0]));
                        assert(neighbors@.contains(chosen[0]));
                    }
                }
                lemma_members_empty(neighbors@);
                assert(members(set@).union(members(neighbors@)) =~= members(set@));
                lemma_canonical_of_ordered(set@);
            }
            return Ok(());
        }
        let neighbor_sets = RelationSet::get_all_neighbor_sets(copy_ids(&neighbors));
        let mut combined_sets: Vec<RelationSet> = Vec::new();
        let mut k: usize = 0;
        while k < neighbor_sets.len()
            invariant
                k <= neighbor_sets.len(),
                self.wf(),
                old(self).wf(),
                old(self).advances_to(*self),
                hyp == old(self).grows_fully(*set, exclude@),
                set.wf(),
                set@.len() >= 1,
                below(set@, self.n() as int),
                is_ordered(neighbors@),
                below(neighbors@, self.n() as int),
                members(neighbors@) == old(self).hyper_edges.neighbors(
                    set.rels(),
                    members(exclude@),
                ),
                members(neighbors@).disjoint(set.rels()),
                forall|i: int|
                    0 <= i < neighbor_sets@.len() ==> is_choice(
                        (#[trigger] neighbor_sets@[i])@,
                        neighbors@,
                    ),
                forall|i: int, j: int|
                    0 <= i < j < neighbor_sets@.len() ==> neighbor_sets@[i]@.len()
                        <= neighbor_sets@[j]@.len(),
                forall|s: Seq<usize>| #[trigger]
                    is_choice(s, neighbors@) ==> sets_have(neighbor_sets@, s),
                combined_sets@.len() == k,
                forall|j: int|
                    0 <= j < k ==> (#[trigger] combined_sets@[j]).wf() && combined_sets@[j]@.len()
                        >= 1 && below(combined_sets@[j]@, self.n() as int),
                hyp ==> forall|j: int|
                    0 <= j < k ==> self.grown(set@, (#[trigger] neighbor_sets@[j])@, neighbors@),
                forall|j: int|
                    0 <= j < k ==> (#[trigger] combined_sets@[j])@ == RelationSet::spec_union(
                        set@,
                        neighbor_sets@[j]@,
                    ) && self.emitted_at(*old(self), combined_sets@[j]@),
            decreases neighbor_sets.len() - k,
        {
            let combined = RelationSet::union(set, &neighbor_sets[k]);
            let ghost chosen = neighbor_sets@[k as int]@;
            let ghost entry = *self;
            proof {
                assert(is_choice(chosen, neighbors@));
                assert forall|q: int| 0 <= q < combined@.len() implies combined@[q] < self.n() by {
                    let x = combined@[q];
                    assert(combined@.contains(x));
                    assert(combined.rels().contains(x));
                    if set.rels().contains(x) {
                        let p = choose|p: int| 0 <= p < set@.len() && set@[p] == x;
                    } else {
                        assert(members(neighbors@).contains(x));
                        let p = choose|p: int| 0 <= p < neighbors@.len() && neighbors@[p] == x;
                    }
                }
                assert(combined@.len() >= 1) by {
                    assert(set@.contains(set@[0]));
                    assert(combined.rels().contains(set@[0]));
                    let p = choose|p: int| 0 <= p < combined@.len() && combined@[p] == set@[0];
                }
                if hyp {
                    self.lemma_next_union_has_plan(
                        *old(self),
                        set@,
                        neighbors@,
                        neighbor_sets@,
                        k as int,
                    );
                    assert(self.best_plans.contains(combined@));
                }
            }
            if self.best_plans.contains_key(&combined) {
                self.emit_connected_subgraphs(&combined)?;
                proof {
                    old(self).lemma_advances_transitive(entry, *self);
                    if hyp {
                        assert(entry.base_relations.len() <= usize::MAX);
                        self.lemma_grown_after_emit(entry, *set, combined, chosen, neighbors@);
                    }
                }
            }
            proof {
                assert(entry.advances_to(*self));
                assert(self.advances_to(*self));
                if old(self).best_plans.contains(combined@) {
                    entry.lemma_emitted_stays(*old(self), *self, *self, combined@);
                }
                assert(self.emitted_at(*old(self), combined@));
                assert forall|j: int| 0 <= j < k implies self.emitted_at(
                    *old(self),
                    (#[trigger] combined_sets@[j])@,
                ) by {
                    if old(self).best_plans.contains(combined_sets@[j]@) {
                        old(self).lemma_emitted_stays(
                            *old(self),
                            entry,
                            *self,
                            combined_sets@[j]@,
                        );
                    }
                }
                if hyp {
                    assert forall|j: int| 0 <= j < k + 1 implies self.grown(
                        set@,
                        (#[trigger] neighbor_sets@[j])@,
                        neighbors@,
                    ) by {
                        if j < k {
                            entry.lemma_grown_stays(*self, set@, neighbor_sets@[j]@, neighbors@);
                        }
                    }
                }
            }
            combined_sets.push(combined);
            k += 1;
        }
        proof {
            if hyp {
                // All neighbors together are one of the sets.
                assert(members(neighbors@).subset_of(members(neighbors@)));
                assert(is_choice(neighbors@, neighbors@));
                assert(sets_have(neighbor_sets@, neighbors@));
                let j = choose|j: int|
                    0 <= j < neighbor_sets@.len() && (#[trigger] neighbor_sets@[j])@ == neighbors@;
                assert(self.grown(set@, neighbor_sets@[j]@, neighbors@));
            }
        }
        let ghost grown_all = *self;
        proof {
            old(self).lemma_unions_emitted(
                grown_all,
                set@,
                neighbors@,
                neighbor_sets@,
                combined_sets@,
            );
        }
        let wider = union_ids(exclude, &neighbors);
        proof {
            assert forall|q: int| 0 <= q < wider@.len() implies wider@[q] < self.n() by {
                let x = wider@[q];
                assert(wider@.contains(x));
                assert(members(wider@).contains(x));
                if members(exclude@).contains(x) {
                    let p = choose|p: int| 0 <= p < exclude@.len() && exclude@[p] == x;
                } else {
                    let p = choose|p: int| 0 <= p < neighbors@.len() && neighbors@[p] == x;
                }
            }
            assert(members(exclude@).subset_of(members(wider@)));
            assert(neighbors@.contains(neighbors@[0]));
            assert(members(neighbors@).contains(neighbors@[0]));
            assert(members(wider@).contains(neighbors@[0]));
            assert(members(exclude@) != members(wider@));
            lemma_ordered_subset_len(exclude@, wider@);
            lemma_ordered_bounded_len(wider@, self.n() as int);
        }
        let mut c: usize = 0;
        while c < combined_sets.len()
            invariant
                c <= combined_sets.len(),
                self.wf(),
                old(self).advances_to(*self),
                grown_all.advances_to(*self),
                is_ordered(wider@),
                below(wider@, self.n() as int),
                wider@.len() > exclude@.len(),
                wider@.len() <= self.n(),
                forall|j: int|
                    0 <= j < combined_sets@.len() ==> (#[trigger] combined_sets@[j]).wf()
                        && combined_sets@[j]@.len() >= 1 && below(
                        combined_sets@[j]@,
                        self.n() as int,
                    ),
            decreases combined_sets.len() - c,
        {
            let ghost entry = *self;
            self.enumerate_connected_subgraphs_rec(&combined_sets[c], &wider)?;
            proof {
                old(self).lemma_advances_transitive(entry, *self);
                grown_all.lemma_advances_transitive(entry, *self);
            }
            c += 1;
        }
        proof {
            if hyp {
                assert(grown_all.best_plans.contains(RelationSet::spec_union(set@, neighbors@)));
            }
            old(self).lemma_unions_stay(grown_all, *self, set@, neighbors@);
        }
        Ok(())
    }

    /// If `combined` had a plan in `start`, its pairs have been emitted.
    pub open spec fn emitted_at(self, start: Graph, combined: Seq<RelId>) -> bool {
        start.best_plans.contains(combined) ==> start.emitted_for(self, combined)
    }

    /// Once every union of `set` with a set of neighbors has had its turn,
    /// all that had a plan have had their pairs emitted.
    proof fn lemma_unions_emitted(
        self,
        later: Graph,
        set: Seq<RelId>,
        pool: Seq<RelId>,
        sets: Seq<RelationSet>,
        combined: Seq<RelationSet>,
    )
        requires
            sets.len() == combined.len(),
            forall|chosen: Seq<usize>|
                #[trigger] is_choice(chosen, pool) ==> sets_have(sets, chosen),
            forall|j: int|
                0 <= j < combined.len() ==> (#[trigger] combined[j])@ == RelationSet::spec_union(
                    set,
                    sets[j]@,
                ) && later.emitted_at(self, combined[j]@),
        ensures
            self.unions_emitted(later, set, pool),
    {
        assert forall|chosen: Seq<RelId>| #[trigger]
            is_choice(chosen, pool) && self.best_plans.contains(
                RelationSet::spec_union(set, chosen),
            ) implies self.emitted_for(later, RelationSet::spec_union(set, chosen)) by {
            assert(sets_have(sets, chosen));
            let j = choose|j: int| 0 <= j < sets.len() && (#[trigger] sets[j])@ == chosen;
            assert(later.emitted_at(self, combined[j]@));
        }
    }

    /// Unions whose pairs have been emitted stay so while the search goes on.
    proof fn lemma_unions_stay(self, mid: Graph, later: Graph, set: Seq<RelId>, pool: Seq<RelId>)
        requires
            self.unions_emitted(mid, set, pool),
            mid.advances_to(later),
        ensures
            self.unions_emitted(later, set, pool),
    {
        assert forall|chosen: Seq<RelId>| #[trigger]
            is_choice(chosen, pool) && self.best_plans.contains(
                RelationSet::spec_union(set, chosen),
            ) implies self.emitted_for(later, RelationSet::spec_union(set, chosen)) by {
            self.lemma_emitted_stays(self, mid, later, RelationSet::spec_union(set, chosen));
        }
    }


    /// Solve the join order.
    ///
    /// Once solved, the memo holds the cheapest plan found for every set of
    /// relations that the search has reached. Among those are every
    /// relation together with each relation after it that an edge joins
    /// with it, and together with what grows out of such a relation and has
    /// been reached from a later relation. On a fully connected graph they
    /// include the set of all relations.
    pub fn solve(&mut self) -> (result: Result<(), JoinOrderError>)
        requires
            old(self).wf(),
        ensures
            final(self).wf(),
            old(self).advances_to(*final(self)),
            result.is_ok(),
            forall|r: RelId|
                r < old(self).n() ==> #[trigger] old(self).emitted_for_base(*final(self), r),
            forall|r: RelId|
                r < old(self).n() ==> #[trigger] old(self).complements_grown(*final(self), seq![r]),
            forall|r: RelId, key: Seq<RelId>| #[trigger]
                old(self).reached_from(r, key) ==> final(self).best_plans.contains(key),
            old(self).hyper_edges.fully_connected(old(self).n()) && old(self).n() >= 1
                ==> final(self).best_plans.contains(range_seq(old(self).n())),
    {
        let mut base_idx: usize = self.base_relations.len();
        proof {
            assert(old(self).advances_to(*self));
        }
        // Iterate over base relations to produce possible pairs.
        while base_idx > 0
            invariant
                base_idx <= self.base_relations.len(),
                self.wf(),
                old(self).advances_to(*self),
                old(self).hyper_edges.fully_connected(old(self).n()) && old(self).n() >= 1
                    && base_idx == 0 ==> self.best_plans.contains(range_seq(old(self).n())),
                forall|r: RelId|
                    base_idx <= r < old(self).n() ==> #[trigger] old(self).emitted_for_base(
                        *self,
                        r,
                    ),
                forall|r: RelId|
                    base_idx <= r < old(self).n() ==> #[trigger] old(self).complements_grown(
                        *self,
                        seq![r],
                    ),
                forall|r: RelId, key: Seq<RelId>|
                    base_idx <= r && #[trigger] old(self).reached_from(r, key)
                        ==> self.best_plans.contains(key),
            decreases base_idx,
        {
            base_idx -= 1;
            let base_rel = RelationSet::base(base_idx);
            let ghost entry = *self;
            proof {
                assert(self.has_base_plan(base_idx));
            }
            // Emit start.
            self.emit_connected_subgraphs(&base_rel)?;
            let ghost emitted = *self;
            // Exclude all other base relations less than this relation's index.
            let exclude = range_ids(base_idx);
            // Search for connected subgraphs starting from this relation.
            self.enumerate_connected_subgraphs_rec(&base_rel, &exclude)?;
            proof {
                old(self).lemma_advances_transitive(entry, emitted);
                old(self).lemma_advances_transitive(emitted, *self);
                assert(emitted.advances_to(*self));
                assert forall|r: RelId|
                    base_idx <= r < old(self).n() implies #[trigger] old(self).emitted_for_base(
                    *self,
                    r,
                ) by {
                    if r == base_idx {
                        entry.lemma_emitted_stays(*old(self), emitted, *self, seq![r]);
                    } else {
                        assert(old(self).emitted_for_base(entry, r));
                        assert(entry.advances_to(*self)) by {
                            entry.lemma_advances_transitive(emitted, *self);
                        }
                        old(self).lemma_emitted_stays(*old(self), entry, *self, seq![r]);
                    }
                }
                assert forall|r: RelId|
                    base_idx <= r < old(self).n() implies #[trigger] old(self).complements_grown(
                    *self,
                    seq![r],
                ) by {
                    if r == base_idx {
                        entry.lemma_complements_grown_stay(*old(self), emitted, *self, seq![r]);
                    } else {
                        assert(entry.advances_to(*self)) by {
                            entry.lemma_advances_transitive(emitted, *self);
                        }
                        assert(old(self).advances_to(*old(self)));
                        old(self).lemma_complements_grown_stay(*old(self), entry, *self, seq![r]);
                    }
                }
                assert forall|r: RelId, key: Seq<RelId>|
                    base_idx <= r && #[trigger] old(self).reached_from(
                        r,
                        key,
                    ) implies self.best_plans.contains(key) by {
                    if r == base_idx {
                        old(self).lemma_reached(entry, emitted, r, key);
                        assert(emitted.best_plans.contains(key));
                    } else {
                        assert(entry.best_plans.contains(key));
                        assert(entry.advances_to(*self)) by {
                            entry.lemma_advances_transitive(emitted, *self);
                        }
                    }
                }
                let n = old(self).n();
                if old(self).hyper_edges.fully_connected(n) && base_idx == 0 {
                    let edges = emitted.hyper_edges;
                    let start = base_rel.rels();
                    let nb = edges.neighbors(start, members(exclude@));
                    assert(start =~= set![0usize]) by {
                        assert forall|x: RelId| start.contains(x) == set![0usize].contains(x) by {
                            if x == 0 {
                                assert(base_rel@[0] == x);
                            }
                        }
                    }
                    edges.lemma_neighbors_below(n, start, members(exclude@));
                    assert(emitted.grows_fully(base_rel, exclude@)) by {
                        assert(entry.best_plans.contains(base_rel@));
                        assert forall|r: RelId| #[trigger] nb.contains(r) implies r > base_rel@[0]
                            && emitted.best_plans.contains(
                            RelationSet::spec_union(base_rel@, seq![r]),
                        ) by {
                            assert(r < n && !start.contains(r));
                            edges.lemma_fully_connected(n, start, 0, r);
                            assert(entry.pairs_with(base_rel@, r));
                        }
                    }
                    // The first relation and all its neighbors are all relations.
                    assert(members(base_rel@).union(nb) =~= ids_below(n as int)) by {
                        assert forall|r: RelId|
                            members(base_rel@).union(nb).contains(r) == ids_below(
                                n as int,
                            ).contains(r) by {
                            if r < n && r != 0 {
                                edges.lemma_fully_connected(n, start, 0, r);
                                assert(!members(exclude@).contains(r));
                            }
                        }
                    }
                    lemma_range_seq(n);
                    lemma_canonical_of_ordered(range_seq(n));
                    super::relation_set::lemma_canonical_finite(nb, n as int);
                }
            }
        }
        Ok(())
    }
}

} // verus!
