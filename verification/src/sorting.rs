use vstd::prelude::*;
use vstd::seq_lib::{group_to_multiset_ensures, lemma_multiset_commutative, to_multiset_build};

verus! {

/// A total preorder on the positions `0..domain()` of some collection.
pub trait PositionOrder {
    spec fn domain(&self) -> nat;

    /// Whether position `i` may stand before position `j`.
    spec fn before(&self, i: int, j: int) -> bool;

    proof fn lemma_total_preorder(&self)
        ensures
            forall|i: int, j: int, k: int|
                0 <= i < self.domain() && 0 <= j < self.domain() && 0 <= k < self.domain()
                    && #[trigger] self.before(i, j) && #[trigger] self.before(j, k) ==> self.before(
                    i,
                    k,
                ),
            forall|i: int, j: int|
                0 <= i < self.domain() && 0 <= j < self.domain() ==> #[trigger] self.before(i, j)
                    || self.before(j, i),
    ;

    fn precedes(&self, i: usize, j: usize) -> (r: bool)
        requires
            i < self.domain(),
            j < self.domain(),
        ensures
            r == self.before(i as int, j as int),
    ;
}

/// The positions `lo, lo + 1, ..., hi - 1`.
pub open spec fn positions(lo: int, hi: int) -> Seq<usize> {
    Seq::new((hi - lo) as nat, |k: int| (lo + k) as usize)
}

/// Every element of `s` lies in `lo..hi`.
pub open spec fn within(s: Seq<usize>, lo: int, hi: int) -> bool {
    forall|k: int| 0 <= k < s.len() ==> lo <= #[trigger] s[k] < hi
}

/// `s` is ordered by `o`.
pub open spec fn ordered_by<O: PositionOrder>(o: &O, s: Seq<usize>) -> bool {
    forall|a: int, b: int| 0 <= a < b < s.len() ==> o.before(#[trigger] s[a] as int, #[trigger] s[b] as int)
}

proof fn lemma_positions_split(lo: int, mid: int, hi: int)
    requires
        0 <= lo <= mid <= hi <= usize::MAX + 1,
    ensures
        positions(lo, mid) + positions(mid, hi) =~= positions(lo, hi),
{
}

fn merge<O: PositionOrder>(o: &O, a: Vec<usize>, b: Vec<usize>) -> (r: Vec<usize>)
    requires
        within(a@, 0, o.domain() as int),
        within(b@, 0, o.domain() as int),
        ordered_by(o, a@),
        ordered_by(o, b@),
        a.len() + b.len() <= usize::MAX,
    ensures
        r@.to_multiset() == a@.to_multiset().add(b@.to_multiset()),
        r.len() == a.len() + b.len(),
        within(r@, 0, o.domain() as int),
        ordered_by(o, r@),
{
    broadcast use group_to_multiset_ensures, vstd::multiset::group_multiset_axioms;

    proof {
        o.lemma_total_preorder();
    }
    let mut r: Vec<usize> = Vec::new();
    let mut i: usize = 0;
    let mut j: usize = 0;
    while i < a.len() || j < b.len()
        invariant
            within(a@, 0, o.domain() as int),
            within(b@, 0, o.domain() as int),
            ordered_by(o, a@),
            ordered_by(o, b@),
            a.len() + b.len() <= usize::MAX,
            i <= a.len(),
            j <= b.len(),
            r.len() == i + j,
            within(r@, 0, o.domain() as int),
            ordered_by(o, r@),
            r@.to_multiset() == a@.take(i as int).to_multiset().add(b@.take(j as int).to_multiset()),
            r.len() > 0 && i < a.len() ==> o.before(r@.last() as int, a@[i as int] as int),
            r.len() > 0 && j < b.len() ==> o.before(r@.last() as int, b@[j as int] as int),
            forall|i: int, j: int, k: int|
                0 <= i < o.domain() && 0 <= j < o.domain() && 0 <= k < o.domain()
                    && #[trigger] o.before(i, j) && #[trigger] o.before(j, k) ==> o.before(i, k),
            forall|i: int, j: int|
                0 <= i < o.domain() && 0 <= j < o.domain() ==> #[trigger] o.before(i, j)
                    || o.before(j, i),
        decreases a.len() + b.len() - i - j,
    {
        let take_a = if i < a.len() && j < b.len() {
            o.precedes(a[i], b[j])
        } else {
            i < a.len()
        };
        let ghost old_r = r@;
        if take_a {
            let x = a[i];
            r.push(x);
            proof {
                assert(a@.take(i + 1) =~= a@.take(i as int).push(x));
                assert(r@ =~= old_r.push(x));
                to_multiset_build(old_r, x);
                to_multiset_build(a@.take(i as int), x);
                assert(r@.to_multiset() =~= a@.take(i + 1).to_multiset().add(
                    b@.take(j as int).to_multiset(),
                ));
                assert forall|p: int, q: int| 0 <= p < q < r@.len() implies o.before(
                    #[trigger] r@[p] as int,
                    #[trigger] r@[q] as int,
                ) by {
                    if q == r@.len() - 1 && p < q {
                        assert(o.before(old_r[p] as int, old_r.last() as int) || p == old_r.len() - 1);
                    }
                }
            }
            i += 1;
        } else {
            let x = b[j];
            r.push(x);
            proof {
                assert(b@.take(j + 1) =~= b@.take(j as int).push(x));
                assert(r@ =~= old_r.push(x));
                to_multiset_build(old_r, x);
                to_multiset_build(b@.take(j as int), x);
                assert(r@.to_multiset() =~= a@.take(i as int).to_multiset().add(
                    b@.take(j + 1).to_multiset(),
                ));
                assert forall|p: int, q: int| 0 <= p < q < r@.len() implies o.before(
                    #[trigger] r@[p] as int,
                    #[trigger] r@[q] as int,
                ) by {
                    if q == r@.len() - 1 && p < q {
                        assert(o.before(old_r[p] as int, old_r.last() as int) || p == old_r.len() - 1);
                    }
                }
            }
            j += 1;
        }
    }
    proof {
        assert(a@.take(i as int) =~= a@);
        assert(b@.take(j as int) =~= b@);
    }
    r
}

/// The positions `lo..hi`, rearranged into an order that `o` accepts.
pub fn sort_positions<O: PositionOrder>(o: &O, lo: usize, hi: usize) -> (r: Vec<usize>)
    requires
        lo <= hi <= o.domain(),
    ensures
        r@.to_multiset() == positions(lo as int, hi as int).to_multiset(),
        r.len() == hi - lo,
        within(r@, lo as int, hi as int),
        ordered_by(o, r@),
    decreases hi - lo,
{
    broadcast use group_to_multiset_ensures;

    if hi - lo <= 1 {
        let mut r: Vec<usize> = Vec::new();
        if lo < hi {
            r.push(lo);
            proof {
                assert(r@ =~= positions(lo as int, hi as int));
            }
        } else {
            proof {
                assert(r@ =~= positions(lo as int, hi as int));
            }
        }
        return r;
    }
    let mid = lo + (hi - lo) / 2;
    let left = sort_positions(o, lo, mid);
    let right = sort_positions(o, mid, hi);
    let r = merge(o, left, right);
    proof {
        lemma_positions_split(lo as int, mid as int, hi as int);
        lemma_multiset_commutative(positions(lo as int, mid as int), positions(mid as int, hi as int));
        assert(forall|k: int| 0 <= k < r@.len() ==> r@.to_multiset().count(r@[k]) > 0);
        assert forall|k: int| 0 <= k < r@.len() implies lo <= #[trigger] r@[k] < hi by {
            let x = r@[k];
            assert(r@.contains(x));
            assert(positions(lo as int, hi as int).to_multiset().count(x) > 0);
            assert(positions(lo as int, hi as int).contains(x));
        }
    }
    r
}

/// A rearrangement of `lo..hi` holds each of those positions exactly once.
pub proof fn lemma_rearranged_positions(q: Seq<usize>, lo: int, hi: int)
    requires
        0 <= lo <= hi <= usize::MAX + 1,
        q.to_multiset() == positions(lo, hi).to_multiset(),
    ensures
        q.no_duplicates(),
        q.len() == hi - lo,
        forall|x: int| lo <= x < hi ==> #[trigger] q.contains(x as usize),
        within(q, lo, hi),
{
    broadcast use group_to_multiset_ensures, vstd::multiset::group_multiset_axioms;

    let r = positions(lo, hi);
    assert(r.no_duplicates());
    r.lemma_multiset_has_no_duplicates();
    q.lemma_multiset_has_no_duplicates_conv();
    assert(q.len() == q.to_multiset().len());
    assert forall|x: int| lo <= x < hi implies #[trigger] q.contains(x as usize) by {
        assert(r[x - lo] == x as usize);
        assert(r.contains(x as usize));
        assert(r.to_multiset().count(x as usize) > 0);
        assert(q.to_multiset().count(x as usize) > 0);
    }
    assert forall|k: int| 0 <= k < q.len() implies lo <= #[trigger] q[k] < hi by {
        assert(q.contains(q[k]));
        assert(q.to_multiset().count(q[k]) > 0);
        assert(r.to_multiset().count(q[k]) > 0);
        assert(r.contains(q[k]));
    }
}

/// Two arrangements of the same positions pick out the same multiset.
pub proof fn lemma_rearranged_map<A>(p: Seq<usize>, q: Seq<usize>, f: spec_fn(usize) -> A)
    requires
        p.to_multiset() == q.to_multiset(),
    ensures
        p.map_values(f).to_multiset() == q.map_values(f).to_multiset(),
    decreases p.len(),
{
    broadcast use group_to_multiset_ensures, vstd::multiset::group_multiset_axioms;

    if p.len() == 0 {
        assert(q.to_multiset().len() == 0);
        assert(p.map_values(f) =~= Seq::<A>::empty());
        assert(q.map_values(f) =~= Seq::<A>::empty());
    } else {
        let x = p.last();
        let p1 = p.drop_last();
        assert(p =~= p1.push(x));
        assert(p.to_multiset().count(x) > 0);
        assert(q.contains(x));
        let i = choose|i: int| 0 <= i < q.len() && q[i] == x;
        let q1 = q.remove(i);
        assert(q1.to_multiset() =~= p1.to_multiset());
        lemma_rearranged_map(p1, q1, f);
        assert(p.map_values(f) =~= p1.map_values(f).push(f(x)));
        assert(q.map_values(f).remove(i) =~= q1.map_values(f));
        assert(q.map_values(f)[i] == f(x));
        assert(q.map_values(f).to_multiset() =~= q1.map_values(f).to_multiset().insert(f(x)));
    }
}

} // verus!
