//! Canonical identifiers for subsets of the base relations.

use vstd::prelude::*;
use super::sorted_ids::{
    contains_id, copy_ids, is_ordered, lemma_ordered_subset_len, lemma_ordered_unique, members,
    ordered_from, same_ids, union_ids,
};

verus! {

/// Unique id of a base relation in the graph.
pub type RelId = usize;

/// The strictly increasing sequence whose members are exactly `s`.
///
/// Only meaningful for finite sets; for those there is exactly one such
/// sequence.
pub open spec fn canonical(s: Set<usize>) -> Seq<usize> {
    choose|q: Seq<usize>| is_ordered(q) && members(q) == s
}

/// An ordered sequence is the canonical sequence of its own members.
pub proof fn lemma_canonical_of_ordered(q: Seq<usize>)
    requires
        is_ordered(q),
    ensures
        canonical(members(q)) == q,
{
    let c = canonical(members(q));
    assert(is_ordered(q) && members(q) == members(q));
    lemma_ordered_unique(c, q);
}

/// An ordered sequence with `x` added to the members of the ordered
/// sequence `q`.
proof fn ordered_with(q: Seq<usize>, x: usize) -> (r: Seq<usize>)
    requires
        is_ordered(q),
    ensures
        is_ordered(r),
        members(r) == members(q).insert(x),
    decreases q.len(),
{
    if q.len() == 0 {
        let r = seq![x];
        assert(members(r) =~= members(q).insert(x)) by {
            assert forall|y: usize| members(r).contains(y) == members(q).insert(x).contains(y) by {
                if y == x {
                    assert(r[0] == y);
                }
            }
        }
        r
    } else if q.last() < x {
        let r = q.push(x);
        assert forall|i: int, j: int| 0 <= i < j < r.len() implies r[i] < r[j] by {
            if j == q.len() {
                if i < q.len() - 1 {
                    assert(q[i] < q[q.len() - 1]);
                }
            }
        }
        assert(members(r) =~= members(q).insert(x)) by {
            assert forall|y: usize| members(r).contains(y) == members(q).insert(x).contains(y) by {
                if r.contains(y) {
                    let k = choose|k: int| 0 <= k < r.len() && r[k] == y;
                    if k < q.len() {
                        assert(q[k] == y);
                    }
                }
                if q.contains(y) {
                    let k = choose|k: int| 0 <= k < q.len() && q[k] == y;
                    assert(r[k] == y);
                }
                if y == x {
                    assert(r[q.len() as int] == y);
                }
            }
        }
        r
    } else if q.last() == x {
        assert(q.contains(x));
        assert(members(q) =~= members(q).insert(x));
        q
    } else {
        let d = q.drop_last();
        let top = q.last();
        let r0 = ordered_with(d, x);
        let r = r0.push(top);
        assert forall|k: int| 0 <= k < r0.len() implies r0[k] < top by {
            assert(r0.contains(r0[k]));
            assert(members(r0).contains(r0[k]));
            if r0[k] != x {
                assert(d.contains(r0[k]));
                let p = choose|p: int| 0 <= p < d.len() && d[p] == r0[k];
                assert(q[p] < q[q.len() - 1]);
            }
        }
        assert(members(r) =~= members(q).insert(x)) by {
            assert forall|y: usize| members(r).contains(y) == members(q).insert(x).contains(y) by {
                if r.contains(y) {
                    let k = choose|k: int| 0 <= k < r.len() && r[k] == y;
                    if k < r0.len() {
                        assert(r0.contains(y));
                        assert(members(r0).contains(y));
                        if y != x {
                            assert(d.contains(y));
                            let p = choose|p: int| 0 <= p < d.len() && d[p] == y;
                            assert(q[p] == y);
                        }
                    } else {
                        assert(q[q.len() - 1] == y);
                    }
                }
                if q.contains(y) {
                    let k = choose|k: int| 0 <= k < q.len() && q[k] == y;
                    if k < d.len() {
                        assert(d[k] == y);
                        assert(d.contains(y));
                        assert(members(r0).contains(y));
                        let p = choose|p: int| 0 <= p < r0.len() && r0[p] == y;
                        assert(r[p] == y);
                    } else {
                        assert(r[r0.len() as int] == y);
                    }
                }
                if y == x {
                    assert(members(r0).contains(x));
                    let p = choose|p: int| 0 <= p < r0.len() && r0[p] == x;
                    assert(r[p] == x);
                }
            }
        }
        r
    }
}

/// An ordered sequence with the members of `s`.
proof fn ordered_of(s: Seq<usize>) -> (q: Seq<usize>)
    ensures
        is_ordered(q),
        members(q) == members(s),
    decreases s.len(),
{
    if s.len() == 0 {
        assert(members(s) =~= members(Seq::<usize>::empty()));
        Seq::empty()
    } else {
        let q0 = ordered_of(s.drop_last());
        let q = ordered_with(q0, s.last());
        assert(members(s) =~= members(s.drop_last()).insert(s.last())) by {
            let d = s.drop_last();
            assert forall|y: usize| members(s).contains(y) == members(d).insert(s.last()).contains(
                y,
            ) by {
                if s.contains(y) {
                    let k = choose|k: int| 0 <= k < s.len() && s[k] == y;
                    if k < d.len() {
                        assert(d[k] == y);
                    }
                }
                if d.contains(y) {
                    let k = choose|k: int| 0 <= k < d.len() && d[k] == y;
                    assert(s[k] == y);
                }
                if y == s.last() {
                    assert(s[s.len() - 1] == y);
                }
            }
        }
        q
    }
}

/// The canonical sequence of the members of a sequence is ordered and has
/// those members.
pub proof fn lemma_canonical_members(s: Seq<usize>)
    ensures
        is_ordered(canonical(members(s))),
        members(canonical(members(s))) == members(s),
{
    let q = ordered_of(s);
    assert(is_ordered(q) && members(q) == members(s));
}

/// The union of two sequences of ids is ordered and has the members of both.
pub proof fn lemma_union_members(a: Seq<usize>, b: Seq<usize>)
    ensures
        is_ordered(RelationSet::spec_union(a, b)),
        members(RelationSet::spec_union(a, b)) == members(a).union(members(b)),
{
    let both = a + b;
    assert(members(both) =~= members(a).union(members(b))) by {
        assert forall|y: usize| members(both).contains(y) == members(a).union(
            members(b),
        ).contains(y) by {
            if both.contains(y) {
                let k = choose|k: int| 0 <= k < both.len() && both[k] == y;
                if k < a.len() {
                    assert(a[k] == y);
                } else {
                    assert(b[k - a.len()] == y);
                }
            }
            if a.contains(y) {
                let k = choose|k: int| 0 <= k < a.len() && a[k] == y;
                assert(both[k] == y);
            }
            if b.contains(y) {
                let k = choose|k: int| 0 <= k < b.len() && b[k] == y;
                assert(both[a.len() + k] == y);
            }
        }
    }
    lemma_canonical_members(both);
}

/// The canonical sequence of a set of ids below a bound is ordered and has
/// the set's members.
pub proof fn lemma_canonical_finite(s: Set<usize>, bound: int)
    requires
        forall|x: usize| s.contains(x) ==> x < bound,
        0 <= bound <= usize::MAX,
    ensures
        is_ordered(canonical(s)),
        members(canonical(s)) == s,
    decreases bound,
{
    if bound == 0 {
        let q = Seq::<usize>::empty();
        assert(members(q) =~= s);
        assert(is_ordered(q) && members(q) == s);
    } else {
        let top = (bound - 1) as usize;
        let rest = s.remove(top);
        lemma_canonical_finite(rest, bound - 1);
        let q0 = canonical(rest);
        if s.contains(top) {
            let q = ordered_with(q0, top);
            assert(members(q) =~= s);
            assert(is_ordered(q) && members(q) == s);
        } else {
            assert(rest =~= s);
        }
    }
}

/// A set of base relations: their ids in strictly increasing order, each once.
///
/// Two sets with the same members are equal however they were built, so a
/// set identifies its subset of the relations.
#[derive(Debug, Clone, PartialEq, Eq, Hash)]
pub struct RelationSet {
    pub relation_indices: Vec<usize>,
}

impl View for RelationSet {
    type V = Seq<usize>;

    open spec fn view(&self) -> Seq<usize> {
        self.relation_indices@
    }
}

impl RelationSet {
    /// The ids are strictly increasing.
    pub open spec fn wf(&self) -> bool {
        is_ordered(self@)
    }

    /// The relations in this set.
    pub open spec fn rels(&self) -> Set<usize> {
        members(self@)
    }

    /// The set built from `indices`.
    pub open spec fn spec_new(indices: Seq<usize>) -> Seq<usize> {
        canonical(members(indices))
    }

    /// The set with the members of both `left` and `right`.
    pub open spec fn spec_union(left: Seq<usize>, right: Seq<usize>) -> Seq<usize> {
        canonical(members(left).union(members(right)))
    }

    /// The set of the relations in `indices`, in whatever order and however
    /// often they are listed.
    pub fn new(indices: Vec<usize>) -> (set: RelationSet)
        ensures
            set.wf(),
            set.rels() == members(indices@),
            set@ == Self::spec_new(indices@),
    {
        let relation_indices = ordered_from(&indices);
        proof {
            lemma_canonical_of_ordered(relation_indices@);
        }
        RelationSet { relation_indices }
    }

    /// The set without members.
    pub fn empty() -> (set: RelationSet)
        ensures
            set.wf(),
            set@ == Seq::<usize>::empty(),
    {
        RelationSet { relation_indices: Vec::new() }
    }

    /// The set whose only member is `idx`.
    pub fn base(idx: usize) -> (set: RelationSet)
        ensures
            set.wf(),
            set@ == seq![idx],
    {
        let mut relation_indices: Vec<usize> = Vec::new();
        relation_indices.push(idx);
        assert(relation_indices@ =~= seq![idx]);
        RelationSet { relation_indices }
    }

    /// Whether the set has exactly one member.
    pub fn is_base(&self) -> (single: bool)
        ensures
            single == (self@.len() == 1),
    {
        self.relation_indices.len() == 1
    }

    /// The set with the members of `left` and of `right`.
    pub fn union(left: &RelationSet, right: &RelationSet) -> (set: RelationSet)
        ensures
            set.wf(),
            set.rels() == left.rels().union(right.rels()),
            set@ == Self::spec_union(left@, right@),
    {
        let relation_indices = union_ids(&left.relation_indices, &right.relation_indices);
        proof {
            lemma_canonical_of_ordered(relation_indices@);
        }
        RelationSet { relation_indices }
    }

    /// Whether `idx` is a member.
    pub fn contains(&self, idx: usize) -> (found: bool)
        ensures
            found == self.rels().contains(idx),
    {
        contains_id(&self.relation_indices, idx)
    }

    /// Whether the two sets are the same sequence of ids.
    pub fn same(&self, other: &RelationSet) -> (same: bool)
        ensures
            same == (self@ == other@),
    {
        same_ids(&self.relation_indices, &other.relation_indices)
    }

    /// A copy of the set.
    pub fn duplicate(&self) -> (set: RelationSet)
        ensures
            set@ == self@,
    {
        RelationSet { relation_indices: copy_ids(&self.relation_indices) }
    }
}

/// The union of two relation sets does not depend on the order of its
/// arguments.
pub proof fn lemma_union_commutes(a: Seq<usize>, b: Seq<usize>)
    ensures
        RelationSet::spec_union(a, b) == RelationSet::spec_union(b, a),
{
    assert(members(a).union(members(b)) =~= members(b).union(members(a)));
}

/// A relation set depends only on which ids it was built from, not on their
/// order or on how often each is listed.
pub proof fn lemma_new_order_independent(x: Seq<usize>, y: Seq<usize>)
    requires
        forall|id: usize| x.contains(id) <==> y.contains(id),
    ensures
        RelationSet::spec_new(x) == RelationSet::spec_new(y),
{
    assert(members(x) =~= members(y));
}

/// Two well-formed relation sets with the same members are the same set.
pub proof fn lemma_same_members_same_set(a: RelationSet, b: RelationSet)
    requires
        a.wf(),
        b.wf(),
        a.rels() == b.rels(),
    ensures
        a@ == b@,
{
    lemma_ordered_unique(a@, b@);
}


/// `s` is a nonempty selection from `pool`, in increasing order.
pub open spec fn is_choice(s: Seq<usize>, pool: Seq<usize>) -> bool {
    &&& s.len() > 0
    &&& is_ordered(s)
    &&& members(s).subset_of(members(pool))
}

/// One of the vectors in `round` holds exactly `s`.
pub open spec fn round_has(round: Seq<Vec<usize>>, s: Seq<usize>) -> bool {
    exists|k: int| 0 <= k < round.len() && (#[trigger] round[k])@ == s
}

/// One of the sets in `sets` is exactly `s`.
pub open spec fn sets_have(sets: Seq<RelationSet>, s: Seq<usize>) -> bool {
    exists|k: int| 0 <= k < sets.len() && (#[trigger] sets[k])@ == s
}

/// `a` and `b` are the same up to some place, where `a` has the smaller id.
pub open spec fn smaller_at_first_difference(a: Seq<usize>, b: Seq<usize>) -> bool {
    exists|p: int|
        0 <= p < a.len() && p < b.len() && #[trigger] a.take(p) == b.take(p) && a[p] < b[p]
}

/// `a` comes before `b` among the selections from a pool: it has fewer ids,
/// or as many and the smaller id at the first place where the two differ.
pub open spec fn comes_before(a: Seq<usize>, b: Seq<usize>) -> bool {
    a.len() < b.len() || (a.len() == b.len() && smaller_at_first_difference(a, b))
}

/// `round` holds each selection of `size` ids from `pool` exactly once, and
/// nothing else, in the order of the selections.
pub open spec fn is_round(round: Seq<Vec<usize>>, pool: Seq<usize>, size: nat) -> bool {
    &&& forall|k: int|
        0 <= k < round.len() ==> is_choice((#[trigger] round[k])@, pool) && round[k]@.len() == size
    &&& forall|j: int, k: int| 0 <= j < k < round.len() ==> round[j]@ != round[k]@
    &&& forall|j: int, k: int|
        0 <= j < k < round.len() ==> smaller_at_first_difference(
            (#[trigger] round[j])@,
            (#[trigger] round[k])@,
        )
    &&& forall|s: Seq<usize>| #[trigger]
        is_choice(s, pool) && s.len() == size ==> round_has(round, s)
}

/// Position `later` in the walk over (set, pool item) pairs comes after `earlier`.
pub open spec fn pair_before(earlier: (int, int), later: (int, int)) -> bool {
    earlier.0 < later.0 || (earlier.0 == later.0 && earlier.1 < later.1)
}

proof fn lemma_choice_extended(cur: Seq<usize>, n: usize, pool: Seq<usize>)
    requires
        is_choice(cur, pool),
        pool.contains(n),
        n > cur.last(),
    ensures
        is_choice(cur.push(n), pool),
{
    let s = cur.push(n);
    assert forall|i: int, j: int| 0 <= i < j < s.len() implies s[i] < s[j] by {
        if j == cur.len() {
            if i < cur.len() - 1 {
                assert(cur[i] < cur[cur.len() - 1]);
            }
        }
    }
    assert forall|x: usize| members(s).contains(x) implies members(pool).contains(x) by {
        let k = choose|k: int| 0 <= k < s.len() && s[k] == x;
        if k < cur.len() {
            assert(cur[k] == x);
            assert(cur.contains(x));
            assert(members(cur).contains(x));
        }
    }
}

pub proof fn lemma_choice_parts(s: Seq<usize>, pool: Seq<usize>)
    requires
        is_choice(s, pool),
        s.len() >= 2,
    ensures
        is_choice(s.drop_last(), pool),
        pool.contains(s.last()),
        s.last() > s.drop_last().last(),
        s == s.drop_last().push(s.last()),
{
    let d = s.drop_last();
    assert forall|x: usize| members(d).contains(x) implies members(pool).contains(x) by {
        let k = choose|k: int| 0 <= k < d.len() && d[k] == x;
        assert(s[k] == x);
        assert(s.contains(x));
        assert(members(s).contains(x));
    }
    assert(s.contains(s.last()));
    assert(members(s).contains(s.last()));
    assert(s[s.len() - 2] < s[s.len() - 1]);
    assert(s =~= d.push(s.last()));
}

/// Extends each set of a round by each pool item that is larger than all of
/// the set's members: the next round.
fn add_supersets(current: &Vec<Vec<usize>>, pool: &Vec<usize>, Ghost(size): Ghost<nat>) -> (added:
    Vec<Vec<usize>>)
    requires
        is_ordered(pool@),
        size >= 1,
        is_round(current@, pool@, size),
    ensures
        is_round(added@, pool@, size + 1),
{
    let mut added: Vec<Vec<usize>> = Vec::new();
    let ghost mut origin: Seq<(int, int)> = Seq::empty();
    let mut ci: usize = 0;
    while ci < current.len()
        invariant
            ci <= current.len(),
            is_ordered(pool@),
            size >= 1,
            is_round(current@, pool@, size),
            origin.len() == added.len(),
            forall|j: int|
                0 <= j < added.len() ==> {
                    let (k, m) = #[trigger] origin[j];
                    &&& 0 <= k < ci
                    &&& 0 <= m < pool.len()
                    &&& pool@[m] > current@[k]@.last()
                    &&& added@[j]@ == current@[k]@.push(pool@[m])
                },
            forall|i: int, j: int|
                0 <= i < j < added.len()
                    ==> pair_before(#[trigger] origin[i], #[trigger] origin[j]),
            forall|k: int, m: int|
                0 <= k < ci && 0 <= m < pool.len() && pool@[m] > current@[k]@.last()
                    ==> exists|j: int| 0 <= j < added.len() && #[trigger] origin[j] == (k, m),
        decreases current.len() - ci,
    {
        let cur = &current[ci];
        assert(is_choice(current@[ci as int]@, pool@));
        let max = cur[cur.len() - 1];
        let mut ni: usize = 0;
        while ni < pool.len()
            invariant
                ci < current.len(),
                ni <= pool.len(),
                is_ordered(pool@),
                size >= 1,
                is_round(current@, pool@, size),
                cur@ == current@[ci as int]@,
                cur@.len() > 0,
                max == cur@.last(),
                origin.len() == added.len(),
                forall|j: int|
                    0 <= j < added.len() ==> {
                        let (k, m) = #[trigger] origin[j];
                        &&& 0 <= k <= ci
                        &&& 0 <= m < pool.len()
                        &&& (k == ci ==> m < ni)
                        &&& pool@[m] > current@[k]@.last()
                        &&& added@[j]@ == current@[k]@.push(pool@[m])
                    },
                forall|i: int, j: int|
                    0 <= i < j < added.len() ==> pair_before(
                        #[trigger] origin[i],
                        #[trigger] origin[j],
                    ),
                forall|k: int, m: int|
                    0 <= k <= ci && 0 <= m < pool.len() && (k == ci ==> m < ni) && pool@[m]
                        > current@[k]@.last() ==> exists|j: int|
                        0 <= j < added.len() && #[trigger] origin[j] == (k, m),
            decreases pool.len() - ni,
        {
            if pool[ni] > max {
                let mut set = copy_ids(cur);
                set.push(pool[ni]);
                let ghost old_origin = origin;
                let ghost old_len = added.len() as int;
                added.push(set);
                proof {
                    origin = origin.push((ci as int, ni as int));
                    assert forall|k: int, m: int|
                        0 <= k <= ci && 0 <= m < pool.len() && (k == ci ==> m < ni + 1) && pool@[m]
                            > current@[k]@.last() implies exists|j: int|
                        0 <= j < added.len() && #[trigger] origin[j] == (k, m) by {
                        if k == ci && m == ni {
                            assert(origin[old_len] == (k, m));
                        } else {
                            let j = choose|j: int|
                                0 <= j < old_len && #[trigger] old_origin[j] == (k, m);
                            assert(origin[j] == (k, m));
                        }
                    }
                }
            }
            ni += 1;
        }
        ci += 1;
    }
    proof {
        assert forall|k: int| 0 <= k < added@.len() implies is_choice(
            (#[trigger] added@[k])@,
            pool@,
        ) && added@[k]@.len() == size + 1 by {
            let (c, m) = origin[k];
            assert(is_choice(current@[c]@, pool@));
            assert(pool@.contains(pool@[m]));
            lemma_choice_extended(current@[c]@, pool@[m], pool@);
        }
        assert forall|i: int, j: int| 0 <= i < j < added@.len() implies added@[i]@
            != added@[j]@ by {
            let (c1, m1) = origin[i];
            let (c2, m2) = origin[j];
            assert(pair_before(origin[i], origin[j]));
            let a = current@[c1]@.push(pool@[m1]);
            let b = current@[c2]@.push(pool@[m2]);
            if a == b {
                assert(a.drop_last() =~= current@[c1]@);
                assert(b.drop_last() =~= current@[c2]@);
                assert(a.last() == pool@[m1]);
                assert(b.last() == pool@[m2]);
                if c1 < c2 {
                    assert(current@[c1]@ != current@[c2]@);
                } else {
                    assert(pool@[m1] < pool@[m2]);
                }
            }
        }
        assert forall|i: int, j: int|
            0 <= i < j < added@.len() implies smaller_at_first_difference(
            (#[trigger] added@[i])@,
            (#[trigger] added@[j])@,
        ) by {
            let (c1, m1) = origin[i];
            let (c2, m2) = origin[j];
            assert(pair_before(origin[i], origin[j]));
            let a = added@[i]@;
            let b = added@[j]@;
            assert(a == current@[c1]@.push(pool@[m1]));
            assert(b == current@[c2]@.push(pool@[m2]));
            assert(is_choice(current@[c1]@, pool@) && current@[c1]@.len() == size);
            assert(is_choice(current@[c2]@, pool@) && current@[c2]@.len() == size);
            if c1 < c2 {
                assert(smaller_at_first_difference(current@[c1]@, current@[c2]@));
                let p = choose|p: int|
                    0 <= p < current@[c1]@.len() && p < current@[c2]@.len()
                        && #[trigger] current@[c1]@.take(p) == current@[c2]@.take(p)
                        && current@[c1]@[p] < current@[c2]@[p];
                assert(a.take(p) =~= current@[c1]@.take(p));
                assert(b.take(p) =~= current@[c2]@.take(p));
                assert(a[p] == current@[c1]@[p] && b[p] == current@[c2]@[p]);
            } else {
                let p = size as int;
                assert(a.take(p) =~= current@[c1]@);
                assert(b.take(p) =~= current@[c2]@);
                assert(pool@[m1] < pool@[m2]);
                assert(a[p] == pool@[m1] && b[p] == pool@[m2]);
            }
        }
        assert forall|s: Seq<usize>| #[trigger]
            is_choice(s, pool@) && s.len() == size + 1 implies round_has(added@, s) by {
            lemma_choice_parts(s, pool@);
            let d = s.drop_last();
            assert(is_choice(d, pool@) && d.len() == size);
            assert(round_has(current@, d));
            let k = choose|k: int| 0 <= k < current@.len() && (#[trigger] current@[k])@ == d;
            let m = choose|m: int| 0 <= m < pool@.len() && pool@[m] == s.last();
            let j = choose|j: int| 0 <= j < added.len() && #[trigger] origin[j] == (k, m);
            assert(added@[j]@ == s);
        }
    }
    added
}

impl RelationSet {
    /// Every nonempty subset of `neighbors`, each exactly once, smaller
    /// subsets before larger ones, and subsets of one size in the order of
    /// their smallest members: the one with the smaller id at the first
    /// place where two differ comes first.
    ///
    /// The subsets of one size are made from those of the size before by
    /// adding one neighbor that is larger than all of a subset's members, so
    /// that no subset is made twice.
    pub fn get_all_neighbor_sets(neighbors: Vec<usize>) -> (sets: Vec<RelationSet>)
        ensures
            forall|i: int| 0 <= i < sets.len() ==> is_choice((#[trigger] sets[i])@, neighbors@),
            forall|s: Seq<usize>| #[trigger] is_choice(s, neighbors@) ==> sets_have(sets@, s),
            forall|i: int, j: int| 0 <= i < j < sets.len() ==> sets[i]@ != sets[j]@,
            forall|i: int, j: int| 0 <= i < j < sets.len() ==> sets[i]@.len() <= sets[j]@.len(),
            forall|i: int, j: int|
                0 <= i < j < sets.len() ==> comes_before(
                    (#[trigger] sets[i])@,
                    (#[trigger] sets[j])@,
                ),
    {
        let pool = ordered_from(&neighbors);
        let mut sets: Vec<RelationSet> = Vec::new();
        let mut added: Vec<Vec<usize>> = Vec::new();
        let mut i: usize = 0;
        while i < pool.len()
            invariant
                i <= pool.len(),
                is_ordered(pool@),
                added.len() == i,
                sets.len() == i,
                forall|k: int| 0 <= k < i ==> (#[trigger] added@[k])@ == seq![pool@[k]],
                forall|k: int| 0 <= k < i ==> (#[trigger] sets@[k])@ == seq![pool@[k]],
            decreases pool.len() - i,
        {
            let mut single: Vec<usize> = Vec::new();
            single.push(pool[i]);
            assert(single@ =~= seq![pool@[i as int]]);
            sets.push(RelationSet { relation_indices: copy_ids(&single) });
            added.push(single);
            i += 1;
        }
        let ghost mut size: nat = 1;
        proof {
            assert forall|k: int| 0 <= k < added@.len() implies is_choice(
                (#[trigger] added@[k])@,
                pool@,
            ) && added@[k]@.len() == 1 by {
                let s = added@[k]@;
                assert(s[0] == pool@[k]);
                assert forall|x: usize| members(s).contains(x) implies members(pool@).contains(
                    x,
                ) by {
                    let q = choose|q: int| 0 <= q < s.len() && s[q] == x;
                    assert(pool@[k] == x);
                    assert(pool@.contains(x));
                }
            }
            assert forall|j: int, k: int| 0 <= j < k < added@.len() implies added@[j]@
                != added@[k]@ by {
                assert(added@[j]@[0] == pool@[j]);
                assert(added@[k]@[0] == pool@[k]);
            }
            assert forall|j: int, k: int|
                0 <= j < k < added@.len() implies smaller_at_first_difference(
                (#[trigger] added@[j])@,
                (#[trigger] added@[k])@,
            ) by {
                assert(added@[j]@[0] == pool@[j]);
                assert(added@[k]@[0] == pool@[k]);
                assert(added@[j]@.take(0) =~= added@[k]@.take(0));
            }
            assert forall|j: int, k: int| 0 <= j < k < sets@.len() implies comes_before(
                (#[trigger] sets@[j])@,
                (#[trigger] sets@[k])@,
            ) by {
                assert(sets@[j]@ == added@[j]@);
                assert(sets@[k]@ == added@[k]@);
                assert(smaller_at_first_difference(added@[j]@, added@[k]@));
            }
            assert forall|s: Seq<usize>| #[trigger]
                is_choice(s, pool@) && s.len() == 1 implies round_has(added@, s) by {
                assert(s.contains(s[0]));
                assert(members(s).contains(s[0]));
                assert(pool@.contains(s[0]));
                let k = choose|k: int| 0 <= k < pool@.len() && pool@[k] == s[0];
                assert(added@[k]@ =~= s);
            }
            assert forall|s: Seq<usize>| #[trigger]
                is_choice(s, pool@) && s.len() <= 1 implies sets_have(sets@, s) by {
                assert(round_has(added@, s));
                let k = choose|k: int| 0 <= k < added@.len() && (#[trigger] added@[k])@ == s;
                assert(sets@[k]@ =~= s);
            }
            assert forall|k: int| 0 <= k < sets@.len() implies is_choice(
                (#[trigger] sets@[k])@,
                pool@,
            ) && sets@[k]@.len() <= 1 by {
                assert(sets@[k]@ == added@[k]@);
            }
            assert forall|j: int, k: int| 0 <= j < k < sets@.len() implies sets@[j]@
                != sets@[k]@ by {
                assert(sets@[j]@ == added@[j]@);
                assert(sets@[k]@ == added@[k]@);
            }
        }
        while added.len() > 0
            invariant
                is_ordered(pool@),
                size >= 1,
                is_round(added@, pool@, size),
                forall|k: int|
                    0 <= k < sets.len() ==> is_choice((#[trigger] sets@[k])@, pool@)
                        && sets@[k]@.len() <= size,
                forall|s: Seq<usize>| #[trigger]
                    is_choice(s, pool@) && s.len() <= size ==> sets_have(sets@, s),
                forall|j: int, k: int| 0 <= j < k < sets.len() ==> sets@[j]@ != sets@[k]@,
                forall|j: int, k: int|
                    0 <= j < k < sets.len() ==> sets@[j]@.len() <= sets@[k]@.len(),
                forall|j: int, k: int|
                    0 <= j < k < sets.len() ==> comes_before(
                        (#[trigger] sets@[j])@,
                        (#[trigger] sets@[k])@,
                    ),
            decreases pool.len() + 1 - size,
        {
            proof {
                assert(is_choice(added@[0]@, pool@));
                lemma_ordered_subset_len(added@[0]@, pool@);
            }
            let next = add_supersets(&added, &pool, Ghost(size));
            let ghost before = sets@;
            let mut k: usize = 0;
            while k < next.len()
                invariant
                    k <= next.len(),
                    sets.len() == before.len() + k,
                    forall|q: int| 0 <= q < before.len() ==> sets@[q] == before[q],
                    forall|q: int|
                        0 <= q < k ==> (#[trigger] sets@[before.len() + q])@ == next@[q]@,
                decreases next.len() - k,
            {
                sets.push(RelationSet { relation_indices: copy_ids(&next[k]) });
                k += 1;
            }
            proof {
                assert forall|q: int| 0 <= q < sets.len() implies is_choice(
                    (#[trigger] sets@[q])@,
                    pool@,
                ) && sets@[q]@.len() <= size + 1 by {
                    if q < before.len() {
                        assert(sets@[q] == before[q]);
                    } else {
                        assert(sets@[before.len() + (q - before.len())]@ == next@[q
                            - before.len()]@);
                        assert(is_choice(next@[q - before.len()]@, pool@));
                    }
                }
                assert forall|s: Seq<usize>| #[trigger]
                    is_choice(s, pool@) && s.len() <= size + 1 implies sets_have(sets@, s) by {
                    if s.len() <= size {
                        assert(sets_have(before, s));
                        let q = choose|q: int|
                            0 <= q < before.len() && (#[trigger] before[q])@ == s;
                        assert(sets@[q] == before[q]);
                    } else {
                        assert(round_has(next@, s));
                        let q = choose|q: int| 0 <= q < next@.len() && (#[trigger] next@[q])@ == s;
                        assert(sets@[before.len() + q]@ == s);
                    }
                }
                assert forall|a: int, b: int| 0 <= a < b < sets.len() implies sets@[a]@
                    != sets@[b]@ && sets@[a]@.len() <= sets@[b]@.len() by {
                    if b < before.len() {
                        assert(sets@[a] == before[a]);
                        assert(sets@[b] == before[b]);
                    } else if a < before.len() {
                        assert(sets@[a] == before[a]);
                        assert(sets@[before.len() + (b - before.len())]@ == next@[b
                            - before.len()]@);
                        assert(is_choice(next@[b - before.len()]@, pool@));
                    } else {
                        assert(sets@[before.len() + (a - before.len())]@ == next@[a
                            - before.len()]@);
                        assert(sets@[before.len() + (b - before.len())]@ == next@[b
                            - before.len()]@);
                        assert(is_choice(next@[a - before.len()]@, pool@));
                        assert(is_choice(next@[b - before.len()]@, pool@));
                    }
                }
                assert forall|a: int, b: int| 0 <= a < b < sets.len() implies comes_before(
                    (#[trigger] sets@[a])@,
                    (#[trigger] sets@[b])@,
                ) by {
                    if b < before.len() {
                        assert(sets@[a] == before[a]);
                        assert(sets@[b] == before[b]);
                        assert(comes_before(before[a]@, before[b]@));
                    } else if a < before.len() {
                        assert(sets@[a] == before[a]);
                        assert(is_choice(before[a]@, pool@) && before[a]@.len() <= size);
                        assert(sets@[before.len() + (b - before.len())]@ == next@[b
                            - before.len()]@);
                        assert(is_choice(next@[b - before.len()]@, pool@));
                    } else {
                        assert(sets@[before.len() + (a - before.len())]@ == next@[a
                            - before.len()]@);
                        assert(sets@[before.len() + (b - before.len())]@ == next@[b
                            - before.len()]@);
                        assert(smaller_at_first_difference(
                            next@[a - before.len()]@,
                            next@[b - before.len()]@,
                        ));
                        assert(is_choice(next@[a - before.len()]@, pool@));
                        assert(is_choice(next@[b - before.len()]@, pool@));
                    }
                }
                size = size + 1;
            }
            added = next;
        }
        proof {
            assert forall|s: Seq<usize>| #[trigger] is_choice(s, neighbors@) implies sets_have(
                sets@,
                s,
            ) by {
                assert(is_choice(s, pool@));
                if s.len() > size {
                    // No selection of the next size exists, hence none larger.
                    lemma_no_larger_choice(s, pool@, size, added@);
                }
            }
        }
        sets
    }
}

/// Where a pool has no selection of `size` ids, it has none of more.
proof fn lemma_no_larger_choice(s: Seq<usize>, pool: Seq<usize>, size: nat, round: Seq<Vec<usize>>)
    requires
        is_choice(s, pool),
        size >= 1,
        round.len() == 0,
        is_round(round, pool, size),
    ensures
        s.len() < size,
{
    if s.len() >= size {
        let t = s.take(size as int);
        assert forall|x: usize| members(t).contains(x) implies members(pool).contains(x) by {
            let k = choose|k: int| 0 <= k < t.len() && t[k] == x;
            assert(s[k] == x);
            assert(s.contains(x));
            assert(members(s).contains(x));
        }
        assert(is_choice(t, pool) && t.len() == size);
        assert(round_has(round, t));
    }
}

} // verus!
