//! Finite sets of ids kept as strictly increasing vectors.
//!
//! A strictly increasing sequence is a canonical form: two of them with the
//! same members are the same sequence. Walking such a set always visits its
//! members in the same order, which keeps planning reproducible.

use vstd::prelude::*;

verus! {

/// The sequence is strictly increasing.
pub open spec fn is_ordered(s: Seq<usize>) -> bool {
    forall|i: int, j: int| 0 <= i < j < s.len() ==> s[i] < s[j]
}

/// The ids that occur in the sequence.
pub open spec fn members(s: Seq<usize>) -> Set<usize> {
    Set::new(|x: usize| s.contains(x))
}

/// Every id of the sequence is below `bound`.
pub open spec fn below(s: Seq<usize>, bound: int) -> bool {
    forall|i: int| 0 <= i < s.len() ==> s[i] < bound
}

/// Two strictly increasing sequences with the same members are equal.
pub proof fn lemma_ordered_unique(a: Seq<usize>, b: Seq<usize>)
    requires
        is_ordered(a),
        is_ordered(b),
        members(a) == members(b),
    ensures
        a == b,
    decreases a.len(),
{
    if a.len() == 0 {
        if b.len() > 0 {
            assert(b.contains(b[0]));
            assert(members(b).contains(b[0]));
            assert(a.contains(b[0]));
        }
        assert(a =~= b);
    } else {
        let la = a.last();
        assert(a.contains(la));
        assert(members(b).contains(la));
        assert(b.contains(la));
        assert(b.len() > 0);
        let lb = b.last();
        assert(b.contains(lb));
        assert(members(a).contains(lb));
        assert(a.contains(lb));
        let ia = choose|i: int| 0 <= i < a.len() && a[i] == lb;
        let ib = choose|i: int| 0 <= i < b.len() && b[i] == la;
        assert(lb <= la);
        assert(la <= lb);
        let a0 = a.drop_last();
        let b0 = b.drop_last();
        assert forall|x: usize| members(a0).contains(x) == members(b0).contains(x) by {
            if a0.contains(x) {
                let i = choose|i: int| 0 <= i < a0.len() && a0[i] == x;
                assert(a[i] == x);
                assert(a.contains(x));
                assert(members(b).contains(x));
                let j = choose|j: int| 0 <= j < b.len() && b[j] == x;
                assert(j < b.len() - 1);
                assert(b0[j] == x);
            }
            if b0.contains(x) {
                let i = choose|i: int| 0 <= i < b0.len() && b0[i] == x;
                assert(b[i] == x);
                assert(b.contains(x));
                assert(members(a).contains(x));
                let j = choose|j: int| 0 <= j < a.len() && a[j] == x;
                assert(j < a.len() - 1);
                assert(a0[j] == x);
            }
        }
        assert(members(a0) =~= members(b0));
        lemma_ordered_unique(a0, b0);
        assert(a =~= a0.push(la));
        assert(b =~= b0.push(lb));
    }
}

/// A strictly increasing sequence has as many items as members.
pub proof fn lemma_ordered_len(s: Seq<usize>)
    requires
        is_ordered(s),
    ensures
        members(s).finite(),
        members(s).len() == s.len(),
{
    assert(s.no_duplicates());
    s.unique_seq_to_set();
    assert(members(s) =~= s.to_set());
}

/// A strictly increasing sequence of ids below `bound` has at most `bound` items.
pub proof fn lemma_ordered_bounded_len(s: Seq<usize>, bound: int)
    requires
        is_ordered(s),
        below(s, bound),
    ensures
        s.len() <= bound || s.len() == 0,
    decreases s.len(),
{
    if s.len() > 0 {
        lemma_ordered_at_least_index(s, s.len() - 1);
    }
}

/// The item at position `i` of a strictly increasing sequence is at least `i`.
pub proof fn lemma_ordered_at_least_index(s: Seq<usize>, i: int)
    requires
        is_ordered(s),
        0 <= i < s.len(),
    ensures
        s[i] >= i,
    decreases i,
{
    if i > 0 {
        lemma_ordered_at_least_index(s, i - 1);
    }
}

/// Of two strictly increasing sequences, one whose members all belong to the
/// other is no longer, and is shorter if the other has a member more.
pub proof fn lemma_ordered_subset_len(a: Seq<usize>, b: Seq<usize>)
    requires
        is_ordered(a),
        is_ordered(b),
        members(a).subset_of(members(b)),
    ensures
        a.len() <= b.len(),
        members(a) != members(b) ==> a.len() < b.len(),
{
    lemma_ordered_len(a);
    lemma_ordered_len(b);
    vstd::set_lib::lemma_len_subset(members(a), members(b));
    if members(a) != members(b) && a.len() == b.len() {
        vstd::set_lib::lemma_subset_equality(members(a), members(b));
    }
}

/// The members of a prefix one item longer are those of the prefix and that
/// item.
pub proof fn lemma_members_take_next(s: Seq<usize>, k: int)
    requires
        0 <= k < s.len(),
    ensures
        members(s.take(k + 1)) == members(s.take(k)).insert(s[k]),
{
    let t0 = s.take(k);
    let t1 = s.take(k + 1);
    assert forall|y: usize| members(t1).contains(y) == members(t0).insert(s[k]).contains(y) by {
        if t1.contains(y) {
            let q = choose|q: int| 0 <= q < t1.len() && t1[q] == y;
            if q < k {
                assert(t0[q] == y);
            }
        }
        if t0.contains(y) {
            let q = choose|q: int| 0 <= q < t0.len() && t0[q] == y;
            assert(t1[q] == y);
        }
        if y == s[k] {
            assert(t1[k] == y);
        }
    }
    assert(members(t1) =~= members(t0).insert(s[k]));
}

/// A sequence without items has no members.
pub proof fn lemma_members_empty(s: Seq<usize>)
    requires
        s.len() == 0,
    ensures
        members(s) == Set::<usize>::empty(),
{
    assert(members(s) =~= Set::<usize>::empty());
}

/// Whether `x` occurs in `v`.
pub fn contains_id(v: &Vec<usize>, x: usize) -> (found: bool)
    ensures
        found == v@.contains(x),
        found == members(v@).contains(x),
{
    let mut i: usize = 0;
    while i < v.len()
        invariant
            i <= v.len(),
            forall|k: int| 0 <= k < i ==> v@[k] != x,
        decreases v.len() - i,
    {
        if v[i] == x {
            return true;
        }
        i += 1;
    }
    false
}

/// Adds `x` to an ordered vector, keeping it ordered. Nothing changes if `x`
/// is already there.
pub fn insert_id(v: &mut Vec<usize>, x: usize)
    requires
        is_ordered(old(v)@),
    ensures
        is_ordered(final(v)@),
        members(final(v)@) == members(old(v)@).insert(x),
        old(v)@.contains(x) ==> final(v)@ == old(v)@,
        !old(v)@.contains(x) ==> final(v)@.len() == old(v)@.len() + 1,
{
    let mut i: usize = 0;
    while i < v.len() && v[i] < x
        invariant
            i <= v.len(),
            v@ == old(v)@,
            forall|k: int| 0 <= k < i ==> v@[k] < x,
        decreases v.len() - i,
    {
        i += 1;
    }
    if i < v.len() && v[i] == x {
        assert(old(v)@.contains(x));
        assert(members(v@) =~= members(old(v)@).insert(x));
        return;
    }
    let ghost before = v@;
    assert(!before.contains(x)) by {
        if before.contains(x) {
            let k = choose|k: int| 0 <= k < before.len() && before[k] == x;
            if k >= i {
                assert(before[i as int] <= before[k]);
            }
        }
    }
    v.insert(i, x);
    assert(is_ordered(v@)) by {
        assert forall|a: int, b: int| 0 <= a < b < v@.len() implies v@[a] < v@[b] by {
            if b < i {
            } else if b == i {
            } else if a < i {
                assert(v@[b] == before[b - 1]);
                assert(before[i as int] <= before[b - 1]);
            } else if a == i {
                assert(v@[b] == before[b - 1]);
                assert(before[i as int] <= before[b - 1]);
            } else {
                assert(v@[a] == before[a - 1]);
                assert(v@[b] == before[b - 1]);
            }
        }
    }
    assert(members(v@) =~= members(before).insert(x)) by {
        assert forall|y: usize| members(v@).contains(y) == members(before).insert(x).contains(
            y,
        ) by {
            if v@.contains(y) {
                let k = choose|k: int| 0 <= k < v@.len() && v@[k] == y;
                if k < i {
                    assert(before[k] == y);
                } else if k > i {
                    assert(before[k - 1] == y);
                }
            }
            if before.contains(y) {
                let k = choose|k: int| 0 <= k < before.len() && before[k] == y;
                if k < i {
                    assert(v@[k] == y);
                } else {
                    assert(v@[k + 1] == y);
                }
            }
            if y == x {
                assert(v@[i as int] == x);
            }
        }
    }
}

/// The ordered vector with the members of `v`: sorted, each id once.
pub fn ordered_from(v: &Vec<usize>) -> (out: Vec<usize>)
    ensures
        is_ordered(out@),
        members(out@) == members(v@),
{
    let mut out: Vec<usize> = Vec::new();
    let mut i: usize = 0;
    assert(members(out@) =~= members(v@.take(0)));
    while i < v.len()
        invariant
            i <= v.len(),
            is_ordered(out@),
            members(out@) == members(v@.take(i as int)),
        decreases v.len() - i,
    {
        let ghost prev = members(out@);
        insert_id(&mut out, v[i]);
        assert(members(v@.take(i + 1)) =~= prev.insert(v@[i as int])) by {
            let t0 = v@.take(i as int);
            let t1 = v@.take(i + 1);
            assert forall|y: usize| members(t1).contains(y) == prev.insert(v@[i as int]).contains(
                y,
            ) by {
                if t1.contains(y) {
                    let k = choose|k: int| 0 <= k < t1.len() && t1[k] == y;
                    if k < i {
                        assert(t0[k] == y);
                    }
                }
                if t0.contains(y) {
                    let k = choose|k: int| 0 <= k < t0.len() && t0[k] == y;
                    assert(t1[k] == y);
                }
                if y == v@[i as int] {
                    assert(t1[i as int] == y);
                }
            }
        }
        i += 1;
    }
    assert(v@.take(v.len() as int) =~= v@);
    out
}

/// The ordered vector with the members of both `a` and `b`.
pub fn union_ids(a: &Vec<usize>, b: &Vec<usize>) -> (out: Vec<usize>)
    ensures
        is_ordered(out@),
        members(out@) == members(a@).union(members(b@)),
{
    let mut out = ordered_from(a);
    let mut i: usize = 0;
    assert(members(out@) =~= members(a@).union(members(b@.take(0))));
    while i < b.len()
        invariant
            i <= b.len(),
            is_ordered(out@),
            members(out@) == members(a@).union(members(b@.take(i as int))),
        decreases b.len() - i,
    {
        let ghost prev = members(out@);
        insert_id(&mut out, b[i]);
        assert(members(out@) =~= members(a@).union(members(b@.take(i + 1)))) by {
            let t0 = b@.take(i as int);
            let t1 = b@.take(i + 1);
            assert forall|y: usize| members(t1).contains(y) == members(t0).insert(
                b@[i as int],
            ).contains(y) by {
                if t1.contains(y) {
                    let k = choose|k: int| 0 <= k < t1.len() && t1[k] == y;
                    if k < i {
                        assert(t0[k] == y);
                    }
                }
                if t0.contains(y) {
                    let k = choose|k: int| 0 <= k < t0.len() && t0[k] == y;
                    assert(t1[k] == y);
                }
                if y == b@[i as int] {
                    assert(t1[i as int] == y);
                }
            }
        }
        i += 1;
    }
    assert(b@.take(b.len() as int) =~= b@);
    out
}

/// Whether every member of `a` is a member of `b`.
pub fn is_subset_ids(a: &Vec<usize>, b: &Vec<usize>) -> (all: bool)
    ensures
        all == members(a@).subset_of(members(b@)),
{
    let mut i: usize = 0;
    while i < a.len()
        invariant
            i <= a.len(),
            forall|k: int| 0 <= k < i ==> members(b@).contains(#[trigger] a@[k]),
        decreases a.len() - i,
    {
        if !contains_id(b, a[i]) {
            assert(a@.contains(a@[i as int]));
            assert(members(a@).contains(a@[i as int]));
            return false;
        }
        i += 1;
    }
    assert forall|y: usize| members(a@).contains(y) implies members(b@).contains(y) by {
        let k = choose|k: int| 0 <= k < a@.len() && a@[k] == y;
        assert(members(b@).contains(a@[k]));
    }
    true
}

/// Whether `a` and `b` have a member in common.
pub fn intersects_ids(a: &Vec<usize>, b: &Vec<usize>) -> (any: bool)
    ensures
        any == exists|x: usize| members(a@).contains(x) && members(b@).contains(x),
{
    let mut i: usize = 0;
    while i < a.len()
        invariant
            i <= a.len(),
            forall|k: int| 0 <= k < i ==> !members(b@).contains(#[trigger] a@[k]),
        decreases a.len() - i,
    {
        if contains_id(b, a[i]) {
            assert(a@.contains(a@[i as int]));
            assert(members(a@).contains(a@[i as int]) && members(b@).contains(a@[i as int]));
            return true;
        }
        i += 1;
    }
    assert forall|x: usize| !(members(a@).contains(x) && members(b@).contains(x)) by {
        if members(a@).contains(x) {
            let k = choose|k: int| 0 <= k < a@.len() && a@[k] == x;
            assert(!members(b@).contains(a@[k]));
        }
    }
    false
}

/// Whether the two vectors hold the same items in the same order.
pub fn same_ids(a: &Vec<usize>, b: &Vec<usize>) -> (same: bool)
    ensures
        same == (a@ == b@),
{
    if a.len() != b.len() {
        return false;
    }
    let mut i: usize = 0;
    while i < a.len()
        invariant
            i <= a.len(),
            a.len() == b.len(),
            forall|k: int| 0 <= k < i ==> a@[k] == b@[k],
        decreases a.len() - i,
    {
        if a[i] != b[i] {
            return false;
        }
        i += 1;
    }
    assert(a@ =~= b@);
    true
}

/// A copy of the vector.
pub fn copy_ids(v: &Vec<usize>) -> (out: Vec<usize>)
    ensures
        out@ == v@,
{
    let mut out: Vec<usize> = Vec::new();
    let mut i: usize = 0;
    while i < v.len()
        invariant
            i <= v.len(),
            out@ == v@.take(i as int),
        decreases v.len() - i,
    {
        out.push(v[i]);
        assert(v@.take(i + 1) =~= v@.take(i as int).push(v@[i as int]));
        i += 1;
    }
    assert(v@.take(v.len() as int) =~= v@);
    out
}

/// Takes `x` out of an ordered vector, if it is there.
pub fn remove_id(v: &mut Vec<usize>, x: usize)
    requires
        is_ordered(old(v)@),
    ensures
        is_ordered(final(v)@),
        members(final(v)@) == members(old(v)@).remove(x),
{
    let mut i: usize = 0;
    while i < v.len() && v[i] != x
        invariant
            i <= v.len(),
            v@ == old(v)@,
            forall|k: int| 0 <= k < i ==> v@[k] != x,
        decreases v.len() - i,
    {
        i += 1;
    }
    if i == v.len() {
        assert(!v@.contains(x));
        assert(members(v@) =~= members(old(v)@).remove(x));
        return;
    }
    let ghost before = v@;
    v.remove(i);
    assert(v@ =~= before.remove(i as int));
    assert(is_ordered(v@)) by {
        assert forall|a: int, b: int| 0 <= a < b < v@.len() implies v@[a] < v@[b] by {
            let a0 = if a < i { a } else { a + 1 };
            let b0 = if b < i { b } else { b + 1 };
            assert(before[a0] < before[b0]);
        }
    }
    assert(members(v@) =~= members(before).remove(x)) by {
        assert forall|y: usize| members(v@).contains(y) == members(before).remove(x).contains(
            y,
        ) by {
            if v@.contains(y) {
                let k = choose|k: int| 0 <= k < v@.len() && v@[k] == y;
                let k0 = if k < i { k } else { k + 1 };
                assert(before[k0] == y);
                if y == x {
                    if k0 < i {
                        assert(before[k0] < before[i as int]);
                    } else {
                        assert(before[i as int] < before[k0]);
                    }
                }
            }
            if before.contains(y) && y != x {
                let k = choose|k: int| 0 <= k < before.len() && before[k] == y;
                let k1 = if k < i { k } else { k - 1 };
                assert(v@[k1] == y);
            }
        }
    }
}

/// The ids below `bound`.
pub open spec fn ids_below(bound: int) -> Set<usize> {
    Set::new(|x: usize| x < bound)
}

/// The ids below `bound` in increasing order.
pub open spec fn range_seq(bound: nat) -> Seq<usize> {
    Seq::new(bound, |i: int| i as usize)
}

/// The ids below `bound`, in increasing order.
pub fn range_ids(bound: usize) -> (out: Vec<usize>)
    ensures
        out@ == range_seq(bound as nat),
        is_ordered(out@),
        below(out@, bound as int),
        members(out@) == ids_below(bound as int),
{
    let mut out: Vec<usize> = Vec::new();
    let mut i: usize = 0;
    while i < bound
        invariant
            i <= bound,
            out@.len() == i,
            forall|k: int| 0 <= k < i ==> out@[k] == k,
        decreases bound - i,
    {
        out.push(i);
        i += 1;
    }
    assert(out@ =~= range_seq(bound as nat));
    proof {
        lemma_range_seq(bound as nat);
    }
    out
}

/// The sequence of the ids below a bound is ordered and holds just those.
pub proof fn lemma_range_seq(bound: nat)
    requires
        bound <= usize::MAX,
    ensures
        is_ordered(range_seq(bound)),
        below(range_seq(bound), bound as int),
        members(range_seq(bound)) == ids_below(bound as int),
{
    let s = range_seq(bound);
    assert forall|x: usize| members(s).contains(x) == ids_below(bound as int).contains(x) by {
        if x < bound {
            assert(s[x as int] == x);
        }
    }
    assert(members(s) =~= ids_below(bound as int));
}

/// An ordered sequence of `bound` ids below `bound` holds every id below
/// `bound`.
pub proof fn lemma_ordered_full(s: Seq<usize>, bound: int)
    requires
        is_ordered(s),
        below(s, bound),
        s.len() == bound,
        bound <= usize::MAX,
    ensures
        members(s) == ids_below(bound),
        s == range_seq(bound as nat),
{
    lemma_range_seq(bound as nat);
    let full = range_seq(bound as nat);
    assert(members(s).subset_of(members(full))) by {
        assert forall|x: usize| members(s).contains(x) implies members(full).contains(x) by {
            let k = choose|k: int| 0 <= k < s.len() && s[k] == x;
            assert(x < bound);
        }
    }
    lemma_ordered_subset_len(s, full);
    lemma_ordered_unique(s, full);
}

/// An ordered sequence with the members of two ordered sequences that have
/// none in common is as long as the two together.
pub proof fn lemma_disjoint_union_len(a: Seq<usize>, b: Seq<usize>, both: Seq<usize>)
    requires
        is_ordered(a),
        is_ordered(b),
        is_ordered(both),
        members(a).disjoint(members(b)),
        members(both) == members(a).union(members(b)),
    ensures
        both.len() == a.len() + b.len(),
{
    lemma_ordered_len(a);
    lemma_ordered_len(b);
    lemma_ordered_len(both);
    vstd::set_lib::lemma_set_disjoint_lens(members(a), members(b));
    assert(members(a) + members(b) =~= members(a).union(members(b)));
}

} // verus!
