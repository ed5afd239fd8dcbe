use vstd::prelude::*;
use vstd::seq_lib::group_to_multiset_ensures;
use vstd::string::*;
use vstd::utf8::encode_utf8;

use crate::error::SdkError;
use crate::ontology::{id_lt, lemma_encode_injective, lemma_id_lt_facts, same_text};
use crate::order::{compare_bytes, Order};
use crate::sorting::{lemma_rearranged_map, lemma_rearranged_positions, positions, sort_positions, PositionOrder};

verus! {

/// How many of the rows `0..n` satisfy `f`.
pub open spec fn count_rows(n: nat, f: spec_fn(int) -> bool) -> nat {
    Seq::new(n, f).to_multiset().count(true)
}

proof fn lemma_count_rows_step(m: nat, f: spec_fn(int) -> bool)
    ensures
        count_rows(m + 1, f) == count_rows(m, f) + if f(m as int) {
            1nat
        } else {
            0nat
        },
{
    broadcast use group_to_multiset_ensures, vstd::multiset::group_multiset_axioms;

    assert(Seq::new(m + 1, f) =~= Seq::new(m, f).push(f(m as int)));
}

/// A sequence that is true exactly on `lo..hi` holds `hi - lo` trues.
proof fn lemma_count_block(s: Seq<bool>, lo: int, hi: int)
    requires
        0 <= lo <= hi <= s.len(),
        forall|t: int| 0 <= t < s.len() ==> (#[trigger] s[t] <==> lo <= t < hi),
    ensures
        s.to_multiset().count(true) == hi - lo,
    decreases s.len(),
{
    broadcast use group_to_multiset_ensures, vstd::multiset::group_multiset_axioms;

    if s.len() > 0 {
        let s1 = s.drop_last();
        assert(s =~= s1.push(s.last()));
        if hi == s.len() && lo < hi {
            lemma_count_block(s1, lo, hi - 1);
        } else if hi == s.len() {
            lemma_count_block(s1, lo - 1, hi - 1);
        } else {
            lemma_count_block(s1, lo, hi);
        }
    }
}

/// Per-label counts of a classification.
#[derive(Debug, Clone)]
pub struct LabelCounts {
    pub label: String,
    pub true_positives: u64,
    pub false_positives: u64,
    pub false_negatives: u64,
}

/// How often the label `actual` was predicted as `predicted`.
#[derive(Debug, Clone)]
pub struct ConfusionCell {
    pub actual: String,
    pub predicted: String,
    pub count: u64,
}

/// The counts behind classification metrics.
#[derive(Debug, Clone)]
pub struct ClassificationCounts {
    pub correct: u64,
    pub total: usize,
    pub labels: Vec<LabelCounts>,
    pub confusion: Vec<ConfusionCell>,
}

/// Row `i` has truth `a` and prediction `b`.
pub open spec fn row_is(truth: Seq<String>, predicted: Seq<String>, i: int, a: Seq<char>, b: Seq<char>) -> bool {
    truth[i]@ == a && predicted[i]@ == b
}

/// The label `x` occurs as a truth or as a prediction.
pub open spec fn label_occurs(truth: Seq<String>, predicted: Seq<String>, x: Seq<char>) -> bool {
    has_label(truth, x) || has_label(predicted, x)
}

/// The counts are those of the rows `truth[i]`, `predicted[i]`: the number
/// of correct rows; every label that occurs once, in byte order, with its
/// true positives, false positives and false negatives; and every pair of
/// truth and prediction that occurs once, in order, with its count.
pub open spec fn counts_of(truth: Seq<String>, predicted: Seq<String>, c: ClassificationCounts) -> bool {
    let n = truth.len();
    &&& c.total == n
    &&& c.correct == count_rows(n, |i: int| truth[i]@ == predicted[i]@)
    &&& forall|a: int, b: int|
        0 <= a < b < c.labels@.len() ==> id_lt(#[trigger] c.labels@[a].label@, #[trigger] c.labels@[b].label@)
    &&& forall|x: Seq<char>|
        #![trigger label_occurs(truth, predicted, x)]
        label_occurs(truth, predicted, x) <==> exists|a: int| 0 <= a < c.labels@.len() && #[trigger] c.labels@[a].label@ == x
    &&& forall|a: int|
        0 <= a < c.labels@.len() ==> {
            let l = #[trigger] c.labels@[a];
            let x = l.label@;
            &&& l.true_positives == count_rows(n, |i: int| truth[i]@ == x && predicted[i]@ == x)
            &&& l.false_positives == count_rows(n, |i: int| truth[i]@ != x && predicted[i]@ == x)
            &&& l.false_negatives == count_rows(n, |i: int| truth[i]@ == x && predicted[i]@ != x)
        }
    &&& forall|a: int, b: int|
        0 <= a < b < c.confusion@.len() ==> id_lt(#[trigger] c.confusion@[a].actual@, #[trigger] c.confusion@[b].actual@)
            || (c.confusion@[a].actual@ == c.confusion@[b].actual@ && id_lt(
            c.confusion@[a].predicted@,
            c.confusion@[b].predicted@,
        ))
    &&& forall|a: int|
        0 <= a < c.confusion@.len() ==> {
            let cell = #[trigger] c.confusion@[a];
            &&& cell.count == count_rows(n, |i: int| row_is(truth, predicted, i, cell.actual@, cell.predicted@))
            &&& cell.count > 0
        }
    &&& forall|i: int| 0 <= i < n ==> has_cell(c.confusion@, #[trigger] truth[i]@, predicted[i]@)
}

/// Some cell is for truth `a` and prediction `b`.
pub open spec fn has_cell(cells: Seq<ConfusionCell>, a: Seq<char>, b: Seq<char>) -> bool {
    exists|c: int| 0 <= c < cells.len() && #[trigger] cells[c].actual@ == a && cells[c].predicted@ == b
}

/// Positions of all truths followed by all predictions, ordered by label.
struct LabelOrder<'a> {
    truth: &'a [String],
    predicted: &'a [String],
}

impl<'a> LabelOrder<'a> {
    spec fn key(&self, k: int) -> Seq<char> {
        if k < self.truth@.len() {
            self.truth@[k]@
        } else {
            self.predicted@[k - self.truth@.len()]@
        }
    }
}

impl<'a> PositionOrder for LabelOrder<'a> {
    closed spec fn domain(&self) -> nat {
        if self.truth@.len() == self.predicted@.len() && 2 * self.truth@.len() <= usize::MAX {
            2 * self.truth@.len()
        } else {
            0
        }
    }

    closed spec fn before(&self, i: int, j: int) -> bool {
        !id_lt(self.key(j), self.key(i))
    }

    proof fn lemma_total_preorder(&self) {
        assert forall|i: int, j: int, k: int|
            0 <= i < self.domain() && 0 <= j < self.domain() && 0 <= k < self.domain()
                && #[trigger] self.before(i, j) && #[trigger] self.before(j, k) implies self.before(
            i,
            k,
        ) by {
            lemma_id_lt_facts(self.key(i), self.key(j), self.key(k));
            lemma_id_lt_facts(self.key(k), self.key(i), self.key(j));
            lemma_id_lt_facts(self.key(j), self.key(k), self.key(i));
        }
        assert forall|i: int, j: int|
            0 <= i < self.domain() && 0 <= j < self.domain() implies #[trigger] self.before(i, j)
            || self.before(j, i) by {
            lemma_id_lt_facts(self.key(i), self.key(j), self.key(j));
        }
    }

    fn precedes(&self, i: usize, j: usize) -> (r: bool) {
        let n = self.truth.len();
        let a = if i < n {
            self.truth[i].as_str()
        } else {
            self.predicted[i - n].as_str()
        };
        let b = if j < n {
            self.truth[j].as_str()
        } else {
            self.predicted[j - n].as_str()
        };
        compare_bytes(b.as_bytes(), a.as_bytes()) != Order::Less
    }
}

/// Rows ordered by truth, then by prediction.
struct RowOrder<'a> {
    truth: &'a [String],
    predicted: &'a [String],
}

impl<'a> RowOrder<'a> {
    /// The pair `k` comes before the pair of row `j`.
    spec fn key_lt_pair(&self, k: (Seq<char>, Seq<char>), j: int) -> bool {
        id_lt(k.0, self.truth@[j]@) || (k.0 == self.truth@[j]@ && id_lt(k.1, self.predicted@[j]@))
    }

    spec fn key_lt(&self, i: int, j: int) -> bool {
        id_lt(self.truth@[i]@, self.truth@[j]@) || (self.truth@[i]@ == self.truth@[j]@ && id_lt(
            self.predicted@[i]@,
            self.predicted@[j]@,
        ))
    }
}

proof fn lemma_pair_facts(a: (Seq<char>, Seq<char>), b: (Seq<char>, Seq<char>), c: (Seq<char>, Seq<char>))
    ensures
        ({
            let lt = |x: (Seq<char>, Seq<char>), y: (Seq<char>, Seq<char>)|
                id_lt(x.0, y.0) || (x.0 == y.0 && id_lt(x.1, y.1));
            &&& !lt(a, a)
            &&& !(lt(a, b) && lt(b, a))
            &&& lt(a, b) && lt(b, c) ==> lt(a, c)
            &&& a == b || lt(a, b) || lt(b, a)
        }),
{
    lemma_id_lt_facts(a.0, b.0, c.0);
    lemma_id_lt_facts(a.1, b.1, c.1);
}

impl<'a> PositionOrder for RowOrder<'a> {
    closed spec fn domain(&self) -> nat {
        if self.truth@.len() == self.predicted@.len() {
            self.truth@.len()
        } else {
            0
        }
    }

    closed spec fn before(&self, i: int, j: int) -> bool {
        !self.key_lt(j, i)
    }

    proof fn lemma_total_preorder(&self) {
        assert forall|i: int, j: int, k: int|
            0 <= i < self.domain() && 0 <= j < self.domain() && 0 <= k < self.domain()
                && #[trigger] self.before(i, j) && #[trigger] self.before(j, k) implies self.before(
            i,
            k,
        ) by {
            let (x, y, z) = (
                (self.truth@[i]@, self.predicted@[i]@),
                (self.truth@[j]@, self.predicted@[j]@),
                (self.truth@[k]@, self.predicted@[k]@),
            );
            lemma_pair_facts(x, y, z);
            lemma_pair_facts(z, x, y);
            lemma_pair_facts(y, z, x);
        }
        assert forall|i: int, j: int|
            0 <= i < self.domain() && 0 <= j < self.domain() implies #[trigger] self.before(i, j)
            || self.before(j, i) by {
            let (x, y) = ((self.truth@[i]@, self.predicted@[i]@), (self.truth@[j]@, self.predicted@[j]@));
            lemma_pair_facts(x, y, y);
        }
    }

    fn precedes(&self, i: usize, j: usize) -> (r: bool) {
        match compare_bytes(self.truth[j].as_str().as_bytes(), self.truth[i].as_str().as_bytes()) {
            Order::Less => false,
            Order::Greater => true,
            Order::Equal => {
                proof {
                    lemma_encode_injective(self.truth@[j as int]@, self.truth@[i as int]@);
                }
                compare_bytes(self.predicted[j].as_str().as_bytes(), self.predicted[i].as_str().as_bytes())
                    != Order::Less
            },
        }
    }
}

/// The labels of `s` are strictly increasing: each occurs once, in order.
pub open spec fn strictly_sorted_labels(s: Seq<String>) -> bool {
    forall|a: int, b: int| 0 <= a < b < s.len() ==> id_lt(#[trigger] s[a]@, #[trigger] s[b]@)
}

/// Some entry of `s` is `x`.
pub open spec fn has_label(s: Seq<String>, x: Seq<char>) -> bool {
    exists|i: int| 0 <= i < s.len() && #[trigger] s[i]@ == x
}

/// Positions of labels, ordered by label.
struct TextOrder<'a> {
    labels: &'a [String],
}

impl<'a> PositionOrder for TextOrder<'a> {
    closed spec fn domain(&self) -> nat {
        self.labels@.len()
    }

    closed spec fn before(&self, i: int, j: int) -> bool {
        !id_lt(self.labels@[j]@, self.labels@[i]@)
    }

    proof fn lemma_total_preorder(&self) {
        assert forall|i: int, j: int, k: int|
            0 <= i < self.domain() && 0 <= j < self.domain() && 0 <= k < self.domain()
                && #[trigger] self.before(i, j) && #[trigger] self.before(j, k) implies self.before(
            i,
            k,
        ) by {
            let (x, y, z) = (self.labels@[i]@, self.labels@[j]@, self.labels@[k]@);
            lemma_id_lt_facts(x, y, z);
            lemma_id_lt_facts(z, x, y);
            lemma_id_lt_facts(y, z, x);
        }
        assert forall|i: int, j: int|
            0 <= i < self.domain() && 0 <= j < self.domain() implies #[trigger] self.before(i, j)
            || self.before(j, i) by {
            lemma_id_lt_facts(self.labels@[i]@, self.labels@[j]@, self.labels@[j]@);
        }
    }

    fn precedes(&self, i: usize, j: usize) -> (r: bool) {
        compare_bytes(self.labels[j].as_str().as_bytes(), self.labels[i].as_str().as_bytes()) != Order::Less
    }
}

/// One of the first `t` positions of `q` holds a label equal to `x`.
spec fn seen_label(labels: Seq<String>, q: Seq<usize>, t: int, x: Seq<char>) -> bool {
    exists|u: int| 0 <= u < t && #[trigger] labels[q[u] as int]@ == x
}

/// The distinct labels of `labels`, in byte order.
fn distinct_labels(labels: &[String]) -> (d: Vec<String>)
    ensures
        strictly_sorted_labels(d@),
        forall|x: Seq<char>|
            #![trigger has_label(labels@, x)]
            #![trigger has_label(d@, x)]
            has_label(labels@, x) == has_label(d@, x),
{
    let mut d: Vec<String> = Vec::new();
    if labels.len() == 0 {
        proof {
            assert forall|x: Seq<char>| has_label(labels@, x) == has_label(d@, x) by {}
        }
        return d;
    }
    let o = TextOrder { labels };
    let q = sort_positions(&o, 0, labels.len());
    proof {
        lemma_rearranged_positions(q@, 0, labels@.len() as int);
        assert forall|a: int, b: int| 0 <= a < b < q@.len() implies !id_lt(
            #[trigger] labels@[q@[b] as int]@,
            #[trigger] labels@[q@[a] as int]@,
        ) by {
            assert(o.before(q@[a] as int, q@[b] as int));
        }
    }
    d.push(labels[q[0]].clone());
    proof {
        assert forall|x: Seq<char>| #[trigger] has_label(d@, x) == seen_label(labels@, q@, 1, x) by {
            if has_label(d@, x) {
                assert(labels@[q@[0] as int]@ == x);
            }
            if seen_label(labels@, q@, 1, x) {
                assert(d@[0]@ == x);
            }
        }
    }
    let mut t: usize = 1;
    while t < q.len()
        invariant
            q@.len() == labels@.len(),
            forall|k: int| 0 <= k < q@.len() ==> #[trigger] q@[k] < labels@.len(),
            forall|a: int, b: int| 0 <= a < b < q@.len() ==> !id_lt(
                #[trigger] labels@[q@[b] as int]@,
                #[trigger] labels@[q@[a] as int]@,
            ),
            1 <= t <= q@.len(),
            d@.len() >= 1,
            strictly_sorted_labels(d@),
            d@.last()@ == labels@[q@[t - 1] as int]@,
            forall|x: Seq<char>| #[trigger] has_label(d@, x) == seen_label(labels@, q@, t as int, x),
        decreases q.len() - t,
    {
        let prev = labels[q[t - 1]].as_str();
        let cur = labels[q[t]].as_str();
        let same = same_text(prev, cur);
        let ghost old_d = d@;
        if !same {
            d.push(labels[q[t]].clone());
            proof {
                lemma_id_lt_facts(prev@, cur@, cur@);
                assert(id_lt(prev@, cur@));
                assert forall|a: int, b: int| 0 <= a < b < d@.len() implies id_lt(#[trigger] d@[a]@, #[trigger] d@[b]@) by {
                    if b == d@.len() - 1 && a < b {
                        if a < old_d.len() - 1 {
                            assert(id_lt(old_d[a]@, old_d.last()@));
                            lemma_id_lt_facts(old_d[a]@, prev@, cur@);
                        }
                    } else {
                        assert(d@[a] == old_d[a] && d@[b] == old_d[b]);
                    }
                }
            }
        }
        proof {
            assert forall|x: Seq<char>| #[trigger] has_label(d@, x) == seen_label(labels@, q@, t + 1, x) by {
                if seen_label(labels@, q@, t + 1, x) {
                    let u = choose|u: int| 0 <= u < t + 1 && #[trigger] labels@[q@[u] as int]@ == x;
                    if u < t {
                        assert(seen_label(labels@, q@, t as int, x));
                        assert(has_label(old_d, x));
                        let a = choose|a: int| 0 <= a < old_d.len() && #[trigger] old_d[a]@ == x;
                        assert(d@[a] == old_d[a]);
                    } else {
                        assert(d@.last()@ == x);
                    }
                }
                if has_label(d@, x) {
                    let a = choose|a: int| 0 <= a < d@.len() && #[trigger] d@[a]@ == x;
                    if a < old_d.len() {
                        assert(old_d[a] == d@[a]);
                        assert(has_label(old_d, x));
                        let u = choose|u: int| 0 <= u < t && #[trigger] labels@[q@[u] as int]@ == x;
                        assert(0 <= u < t + 1);
                    } else {
                        assert(labels@[q@[t as int] as int]@ == x);
                    }
                }
            }
        }
        t += 1;
    }
    proof {
        assert forall|x: Seq<char>| has_label(labels@, x) == has_label(d@, x) by {
            if has_label(labels@, x) {
                let i = choose|i: int| 0 <= i < labels@.len() && #[trigger] labels@[i]@ == x;
                assert(q@.contains(i as usize));
                let u = choose|u: int| 0 <= u < q@.len() && q@[u] == i as usize;
                assert(labels@[q@[u] as int]@ == x);
                assert(seen_label(labels@, q@, t as int, x));
            }
            if has_label(d@, x) {
                assert(seen_label(labels@, q@, t as int, x));
                let u = choose|u: int| 0 <= u < t && #[trigger] labels@[q@[u] as int]@ == x;
                assert(labels@[q@[u] as int]@ == x);
            }
        }
    }
    d
}

/// The union of two label lists in byte order.
fn union_labels(a: &Vec<String>, b: &Vec<String>) -> (r: Vec<String>)
    requires
        strictly_sorted_labels(a@),
        strictly_sorted_labels(b@),
    ensures
        strictly_sorted_labels(r@),
        forall|x: Seq<char>| #[trigger] has_label(r@, x) == (has_label(a@, x) || has_label(b@, x)),
{
    let mut r: Vec<String> = Vec::new();
    let mut i: usize = 0;
    let mut j: usize = 0;
    while i < a.len() || j < b.len()
        invariant
            strictly_sorted_labels(a@),
            strictly_sorted_labels(b@),
            strictly_sorted_labels(r@),
            i <= a@.len(),
            j <= b@.len(),
            r@.len() > 0 && i < a@.len() ==> id_lt(r@.last()@, a@[i as int]@),
            r@.len() > 0 && j < b@.len() ==> id_lt(r@.last()@, b@[j as int]@),
            forall|x: Seq<char>| #[trigger] has_label(r@, x) == (has_label(a@.take(i as int), x) || has_label(b@.take(j as int), x)),
        decreases a@.len() + b@.len() - i - j,
    {
        let ghost old_r = r@;
        let ghost (oi, oj) = (i as int, j as int);
        let mut take_a = i < a.len();
        let mut take_b = j < b.len();
        if take_a && take_b {
            match compare_bytes(a[i].as_str().as_bytes(), b[j].as_str().as_bytes()) {
                Order::Less => { take_b = false; },
                Order::Greater => { take_a = false; },
                Order::Equal => {
                    proof {
                        lemma_encode_injective(a@[i as int]@, b@[j as int]@);
                    }
                },
            }
        }
        let ghost x = if take_a { a@[i as int]@ } else { b@[j as int]@ };
        if take_a {
            r.push(a[i].clone());
            i += 1;
        } else {
            r.push(b[j].clone());
        }
        if take_b {
            j += 1;
        }
        proof {
            assert(r@.last()@ == x);
            if take_a && take_b {
                assert(a@[oi]@ == b@[oj]@);
            }
            assert(take_a ==> x == a@[oi]@);
            assert(take_b ==> x == b@[oj]@);
            if oi < a@.len() && !take_a {
                lemma_id_lt_facts(b@[oj]@, a@[oi]@, a@[oi]@);
            }
            if oj < b@.len() && !take_b {
                lemma_id_lt_facts(a@[oi]@, b@[oj]@, b@[oj]@);
            }
            assert forall|p: int, q: int| 0 <= p < q < r@.len() implies id_lt(#[trigger] r@[p]@, #[trigger] r@[q]@) by {
                if q == r@.len() - 1 {
                    if p < old_r.len() - 1 {
                        assert(id_lt(old_r[p]@, old_r.last()@));
                        lemma_id_lt_facts(old_r[p]@, old_r.last()@, x);
                    }
                } else {
                    assert(r@[p] == old_r[p] && r@[q] == old_r[q]);
                }
            }
            if i < a@.len() {
                if take_a {
                    assert(id_lt(a@[oi]@, a@[i as int]@));
                } else {
                    lemma_id_lt_facts(x, a@[oi]@, a@[oi]@);
                }
            }
            if j < b@.len() {
                if take_b {
                    assert(id_lt(b@[oj]@, b@[j as int]@));
                } else {
                    lemma_id_lt_facts(x, b@[oj]@, b@[oj]@);
                }
            }
            assert(take_a ==> a@.take(i as int) =~= a@.take(oi).push(a@[oi]));
            assert(!take_a ==> a@.take(i as int) =~= a@.take(oi));
            assert(take_b ==> b@.take(j as int) =~= b@.take(oj).push(b@[oj]));
            assert(!take_b ==> b@.take(j as int) =~= b@.take(oj));
            assert forall|y: Seq<char>| #[trigger] has_label(r@, y) == (has_label(a@.take(i as int), y) || has_label(b@.take(j as int), y)) by {
                if has_label(r@, y) {
                    let k = choose|k: int| 0 <= k < r@.len() && #[trigger] r@[k]@ == y;
                    if k < old_r.len() {
                        assert(old_r[k]@ == y);
                        assert(has_label(old_r, y));
                        if has_label(a@.take(oi), y) {
                            let m = choose|m: int| 0 <= m < oi && #[trigger] a@.take(oi)[m]@ == y;
                            assert(a@.take(i as int)[m]@ == y);
                        } else {
                            assert(has_label(b@.take(oj), y));
                            let m = choose|m: int| 0 <= m < oj && #[trigger] b@.take(oj)[m]@ == y;
                            assert(b@.take(j as int)[m]@ == y);
                        }
                    } else if take_a {
                        assert(a@.take(i as int)[oi]@ == y);
                    } else {
                        assert(b@.take(j as int)[oj]@ == y);
                    }
                }
                if has_label(a@.take(i as int), y) {
                    let m = choose|m: int| 0 <= m < a@.take(i as int).len() && #[trigger] a@.take(i as int)[m]@ == y;
                    if m < oi {
                        assert(a@.take(oi)[m]@ == y);
                        assert(has_label(old_r, y));
                        let k = choose|k: int| 0 <= k < old_r.len() && #[trigger] old_r[k]@ == y;
                        assert(r@[k]@ == y);
                    } else {
                        assert(r@[r@.len() - 1]@ == y);
                    }
                }
                if has_label(b@.take(j as int), y) {
                    let m = choose|m: int| 0 <= m < b@.take(j as int).len() && #[trigger] b@.take(j as int)[m]@ == y;
                    if m < oj {
                        assert(b@.take(oj)[m]@ == y);
                        assert(has_label(old_r, y));
                        let k = choose|k: int| 0 <= k < old_r.len() && #[trigger] old_r[k]@ == y;
                        assert(r@[k]@ == y);
                    } else {
                        assert(r@[r@.len() - 1]@ == y);
                    }
                }
            }
        }
    }
    proof {
        assert(a@.take(i as int) =~= a@);
        assert(b@.take(j as int) =~= b@);
    }
    r
}

proof fn lemma_count_rows_bound(m: nat, f: spec_fn(int) -> bool)
    ensures
        count_rows(m, f) <= m,
    decreases m,
{
    if m > 0 {
        lemma_count_rows_bound((m - 1) as nat, f);
        lemma_count_rows_step((m - 1) as nat, f);
    } else {
        assert(Seq::new(0, f) =~= Seq::<bool>::empty());
        broadcast use group_to_multiset_ensures;
        assert(Seq::new(0, f).to_multiset().len() == 0);
    }
}

/// The true positives, false positives and false negatives of `label`.
fn count_label(truth: &[String], predicted: &[String], label: &str) -> (r: (u64, u64, u64))
    requires
        truth@.len() == predicted@.len(),
    ensures
        ({
            let (n, x) = (truth@.len(), label@);
            &&& r.0 == count_rows(n, |i: int| truth@[i]@ == x && predicted@[i]@ == x)
            &&& r.1 == count_rows(n, |i: int| truth@[i]@ != x && predicted@[i]@ == x)
            &&& r.2 == count_rows(n, |i: int| truth@[i]@ == x && predicted@[i]@ != x)
        }),
{
    let ghost x = label@;
    let ghost ftp = |i: int| truth@[i]@ == x && predicted@[i]@ == x;
    let ghost ffp = |i: int| truth@[i]@ != x && predicted@[i]@ == x;
    let ghost ffn = |i: int| truth@[i]@ == x && predicted@[i]@ != x;
    let mut tp: u64 = 0;
    let mut fp: u64 = 0;
    let mut fneg: u64 = 0;
    let mut i: usize = 0;
    proof {
        lemma_count_rows_bound(0, ftp);
        lemma_count_rows_bound(0, ffp);
        lemma_count_rows_bound(0, ffn);
    }
    while i < truth.len()
        invariant
            truth@.len() == predicted@.len(),
            x == label@,
            ftp == (|i: int| truth@[i]@ == x && predicted@[i]@ == x),
            ffp == (|i: int| truth@[i]@ != x && predicted@[i]@ == x),
            ffn == (|i: int| truth@[i]@ == x && predicted@[i]@ != x),
            i <= truth@.len(),
            tp == count_rows(i as nat, ftp),
            fp == count_rows(i as nat, ffp),
            fneg == count_rows(i as nat, ffn),
        decreases truth.len() - i,
    {
        let t = same_text(truth[i].as_str(), label);
        let p = same_text(predicted[i].as_str(), label);
        proof {
            lemma_count_rows_step(i as nat, ftp);
            lemma_count_rows_step(i as nat, ffp);
            lemma_count_rows_step(i as nat, ffn);
            lemma_count_rows_bound(i as nat, ftp);
            lemma_count_rows_bound(i as nat, ffp);
            lemma_count_rows_bound(i as nat, ffn);
            assert(i < usize::MAX);
        }
        if t && p {
            tp += 1;
        } else if p {
            fp += 1;
        } else if t {
            fneg += 1;
        }
        i += 1;
    }
    (tp, fp, fneg)
}

/// Rows `g0..g1` of the arrangement `q` are exactly the rows with the pair
/// of row `q[g0]`.
proof fn lemma_cell_run(truth: Seq<String>, predicted: Seq<String>, o: RowOrder, q: Seq<usize>, g0: int, g1: int)
    requires
        o.truth@ == truth,
        o.predicted@ == predicted,
        truth.len() == predicted.len(),
        truth.len() <= usize::MAX,
        q.len() == truth.len(),
        q.to_multiset() == positions(0, truth.len() as int).to_multiset(),
        q.no_duplicates(),
        forall|x: int| 0 <= x < truth.len() ==> #[trigger] q.contains(x as usize),
        forall|t: int| 0 <= t < q.len() ==> #[trigger] q[t] < truth.len(),
        forall|a: int, b: int| 0 <= a < b < q.len() ==> !o.key_lt(#[trigger] q[b] as int, #[trigger] q[a] as int),
        0 <= g0 < g1 <= q.len(),
        forall|t: int| g0 <= t < g1 ==> row_is(truth, predicted, #[trigger] q[t] as int, truth[q[g0] as int]@, predicted[q[g0] as int]@),
        0 < g0 ==> !row_is(truth, predicted, q[g0 - 1] as int, truth[q[g0] as int]@, predicted[q[g0] as int]@),
        g1 < q.len() ==> !row_is(truth, predicted, q[g1] as int, truth[q[g0] as int]@, predicted[q[g0] as int]@),
    ensures
        count_rows(truth.len(), |i: int| row_is(truth, predicted, i, truth[q[g0] as int]@, predicted[q[g0] as int]@))
            == g1 - g0,
        g1 < q.len() ==> o.key_lt(q[g0] as int, q[g1] as int),
{
    let n = truth.len() as int;
    let (a, b) = (truth[q[g0] as int]@, predicted[q[g0] as int]@);
    let w = (a, b);
    let key = |k: int| (truth[k]@, predicted[k]@);
    assert forall|t: int| 0 <= t < n implies (row_is(truth, predicted, #[trigger] q[t] as int, a, b) <==> g0 <= t < g1) by {
        if t < g0 && row_is(truth, predicted, q[t] as int, a, b) {
            let u = key(q[g0 - 1] as int);
            lemma_pair_facts(u, w, w);
            assert(!o.key_lt(q[g0] as int, q[g0 - 1] as int));
            if t < g0 - 1 {
                assert(!o.key_lt(q[g0 - 1] as int, q[t] as int));
                lemma_pair_facts(w, u, w);
            }
            assert(false);
        }
        if t >= g1 && row_is(truth, predicted, q[t] as int, a, b) {
            let u = key(q[g1] as int);
            lemma_pair_facts(u, w, w);
            assert(!o.key_lt(q[g1] as int, q[g0] as int));
            if t > g1 {
                assert(!o.key_lt(q[t] as int, q[g1] as int));
                lemma_pair_facts(w, u, w);
            }
            assert(false);
        }
    }
    if g1 < n {
        assert(!o.key_lt(q[g1] as int, q[g0] as int));
        lemma_pair_facts(key(q[g0] as int), key(q[g1] as int), key(q[g1] as int));
    }
    let f = |k: usize| row_is(truth, predicted, k as int, a, b);
    lemma_rearranged_map(q, positions(0, n), f);
    assert(positions(0, n).map_values(f) =~= Seq::new(truth.len(), |i: int| row_is(truth, predicted, i, a, b)));
    lemma_count_block(q.map_values(f), g0, g1);
}

/// The confusion cells of the rows, in order of truth and prediction.
fn confusion_cells(truth: &[String], predicted: &[String]) -> (cells: Vec<ConfusionCell>)
    requires
        truth@.len() == predicted@.len(),
    ensures
        forall|a: int, b: int|
            0 <= a < b < cells@.len() ==> id_lt(#[trigger] cells@[a].actual@, #[trigger] cells@[b].actual@)
                || (cells@[a].actual@ == cells@[b].actual@ && id_lt(cells@[a].predicted@, cells@[b].predicted@)),
        forall|a: int|
            0 <= a < cells@.len() ==> {
                let cell = #[trigger] cells@[a];
                &&& cell.count == count_rows(truth@.len(), |i: int| row_is(truth@, predicted@, i, cell.actual@, cell.predicted@))
                &&& cell.count > 0
            },
        forall|i: int| 0 <= i < truth@.len() ==> has_cell(cells@, #[trigger] truth@[i]@, predicted@[i]@),
{
    let n = truth.len();
    let mut cells: Vec<ConfusionCell> = Vec::new();
    let o = RowOrder { truth, predicted };
    let q = sort_positions(&o, 0, n);
    proof {
        lemma_rearranged_positions(q@, 0, n as int);
        assert forall|a: int, b: int| 0 <= a < b < q@.len() implies !o.key_lt(#[trigger] q@[b] as int, #[trigger] q@[a] as int) by {
            assert(o.before(q@[a] as int, q@[b] as int));
        }
    }
    let mut g0: usize = 0;
    while g0 < n
        invariant
            n == truth@.len(),
            truth@.len() == predicted@.len(),
            o.truth@ == truth@,
            o.predicted@ == predicted@,
            q@.len() == n,
            q@.to_multiset() == positions(0, n as int).to_multiset(),
            q@.no_duplicates(),
            forall|x: int| 0 <= x < n ==> #[trigger] q@.contains(x as usize),
            forall|t: int| 0 <= t < q@.len() ==> #[trigger] q@[t] < n,
            forall|a: int, b: int| 0 <= a < b < q@.len() ==> !o.key_lt(#[trigger] q@[b] as int, #[trigger] q@[a] as int),
            g0 <= n,
            0 < g0 < n ==> !row_is(truth@, predicted@, q@[g0 - 1] as int, truth@[q@[g0 as int] as int]@, predicted@[q@[g0 as int] as int]@),
            forall|a: int, b: int|
                0 <= a < b < cells@.len() ==> id_lt(#[trigger] cells@[a].actual@, #[trigger] cells@[b].actual@)
                    || (cells@[a].actual@ == cells@[b].actual@ && id_lt(cells@[a].predicted@, cells@[b].predicted@)),
            g0 < n ==> forall|a: int|
                0 <= a < cells@.len() ==> o.key_lt_pair((#[trigger] cells@[a].actual@, cells@[a].predicted@), q@[g0 as int] as int),
            forall|a: int|
                0 <= a < cells@.len() ==> {
                    let cell = #[trigger] cells@[a];
                    &&& cell.count == count_rows(n as nat, |i: int| row_is(truth@, predicted@, i, cell.actual@, cell.predicted@))
                    &&& cell.count > 0
                },
            forall|t: int|
                0 <= t < g0 ==> exists|a: int|
                    0 <= a < cells@.len() && cells@[a].actual@ == truth@[#[trigger] q@[t] as int]@ && cells@[a].predicted@
                        == predicted@[q@[t] as int]@,
        decreases n - g0,
    {
        let mut g1 = g0 + 1;
        while g1 < n && same_text(truth[q[g0]].as_str(), truth[q[g1]].as_str()) && same_text(
            predicted[q[g0]].as_str(),
            predicted[q[g1]].as_str(),
        )
            invariant
                n == truth@.len(),
                truth@.len() == predicted@.len(),
                q@.len() == n,
                forall|t: int| 0 <= t < q@.len() ==> #[trigger] q@[t] < n,
                g0 < g1 <= n,
                forall|t: int| g0 <= t < g1 ==> row_is(truth@, predicted@, #[trigger] q@[t] as int, truth@[q@[g0 as int] as int]@, predicted@[q@[g0 as int] as int]@),
            decreases n - g1,
        {
            g1 += 1;
        }
        let ghost (a, b) = (truth@[q@[g0 as int] as int]@, predicted@[q@[g0 as int] as int]@);
        proof {
            lemma_cell_run(truth@, predicted@, o, q@, g0 as int, g1 as int);
        }
        let ghost old_cells = cells@;
        let cell = ConfusionCell {
            actual: truth[q[g0]].clone(),
            predicted: predicted[q[g0]].clone(),
            count: (g1 - g0) as u64,
        };
        cells.push(cell);
        proof {
            let w = (a, b);
            assert(cells@.last().actual@ == a && cells@.last().predicted@ == b);
            assert forall|p: int, r: int|
                0 <= p < r < cells@.len() implies id_lt(#[trigger] cells@[p].actual@, #[trigger] cells@[r].actual@)
                    || (cells@[p].actual@ == cells@[r].actual@ && id_lt(cells@[p].predicted@, cells@[r].predicted@)) by {
                if r == cells@.len() - 1 {
                    assert(o.key_lt_pair((old_cells[p].actual@, old_cells[p].predicted@), q@[g0 as int] as int));
                } else {
                    assert(cells@[p] == old_cells[p] && cells@[r] == old_cells[r]);
                }
            }
            if g1 < n {
                assert forall|p: int| 0 <= p < cells@.len() implies o.key_lt_pair((#[trigger] cells@[p].actual@, cells@[p].predicted@), q@[g1 as int] as int) by {
                    let k = (cells@[p].actual@, cells@[p].predicted@);
                    let nk = (truth@[q@[g1 as int] as int]@, predicted@[q@[g1 as int] as int]@);
                    if p < cells@.len() - 1 {
                        assert(cells@[p] == old_cells[p]);
                        lemma_pair_facts(k, w, nk);
                    }
                }
                assert(!row_is(truth@, predicted@, q@[g1 - 1] as int, truth@[q@[g1 as int] as int]@, predicted@[q@[g1 as int] as int]@));
            }
            assert forall|t: int|
                0 <= t < g1 implies exists|c: int|
                    0 <= c < cells@.len() && cells@[c].actual@ == truth@[#[trigger] q@[t] as int]@ && cells@[c].predicted@
                        == predicted@[q@[t] as int]@ by {
                if t < g0 {
                    let c = choose|c: int|
                        0 <= c < old_cells.len() && old_cells[c].actual@ == truth@[q@[t] as int]@ && old_cells[c].predicted@
                            == predicted@[q@[t] as int]@;
                    assert(cells@[c] == old_cells[c]);
                } else {
                    assert(row_is(truth@, predicted@, q@[t] as int, a, b));
                    assert(cells@[cells@.len() - 1].actual@ == a);
                }
            }
            assert forall|p: int| 0 <= p < cells@.len() implies {
                let c = #[trigger] cells@[p];
                &&& c.count == count_rows(n as nat, |i: int| row_is(truth@, predicted@, i, c.actual@, c.predicted@))
                &&& c.count > 0
            } by {
                if p < cells@.len() - 1 {
                    assert(cells@[p] == old_cells[p]);
                }
            }
        }
        g0 = g1;
    }
    proof {
        assert forall|i: int| 0 <= i < truth@.len() implies has_cell(cells@, #[trigger] truth@[i]@, predicted@[i]@) by {
            assert(q@.contains(i as usize));
            let t = choose|t: int| 0 <= t < q@.len() && q@[t] == i as usize;
            let c = choose|c: int|
                0 <= c < cells@.len() && cells@[c].actual@ == truth@[q@[t] as int]@ && cells@[c].predicted@
                    == predicted@[q@[t] as int]@;
            assert(q@[t] as int == i);
            assert(cells@[c].actual@ == truth@[i]@);
            assert(cells@[c].predicted@ == predicted@[i]@);
        }
    }
    cells
}

/// The union of the distinct truths and the distinct predictions holds
/// exactly the labels that occur.
proof fn lemma_labels_cover(truth: Seq<String>, predicted: Seq<String>, ft: Seq<String>, fp: Seq<String>, names: Seq<String>)
    requires
        truth.len() == predicted.len(),
        forall|x: Seq<char>| #![trigger has_label(truth, x)] #![trigger has_label(ft, x)] has_label(truth, x) == has_label(ft, x),
        forall|x: Seq<char>| #![trigger has_label(predicted, x)] #![trigger has_label(fp, x)] has_label(predicted, x) == has_label(fp, x),
        forall|x: Seq<char>| #[trigger] has_label(names, x) == (has_label(ft, x) || has_label(fp, x)),
    ensures
        forall|x: Seq<char>| #![trigger label_occurs(truth, predicted, x)] #![trigger has_label(names, x)] label_occurs(truth, predicted, x) == has_label(names, x),
{
    assert forall|x: Seq<char>| label_occurs(truth, predicted, x) == has_label(names, x) by {
        assert(has_label(names, x) == (has_label(ft, x) || has_label(fp, x)));
        assert(has_label(truth, x) == has_label(ft, x));
        assert(has_label(predicted, x) == has_label(fp, x));
    }
}

/// The counts behind the classification metrics of predictions against the
/// truth, row by row: there must be rows, as many predictions as truths.
pub fn classification_counts(truth: &[String], predicted: &[String]) -> (r: Result<ClassificationCounts, SdkError>)
    ensures
        r is Ok <==> truth@.len() > 0 && truth@.len() == predicted@.len(),
        truth@.len() == 0 ==> r == Err::<ClassificationCounts, SdkError>(SdkError::EmptyDataset),
        truth@.len() > 0 && truth@.len() != predicted@.len() ==> r == Err::<ClassificationCounts, SdkError>(
            SdkError::DimensionMismatch { expected: truth@.len() as usize, actual: predicted@.len() as usize },
        ),
        r matches Ok(c) ==> counts_of(truth@, predicted@, c),
{
    if truth.len() == 0 {
        return Err(SdkError::EmptyDataset);
    }
    if truth.len() != predicted.len() {
        return Err(SdkError::DimensionMismatch { expected: truth.len(), actual: predicted.len() });
    }
    let n = truth.len();
    let ghost fc = |i: int| truth@[i]@ == predicted@[i]@;
    let mut correct: u64 = 0;
    let mut i: usize = 0;
    proof {
        lemma_count_rows_bound(0, fc);
    }
    while i < n
        invariant
            n == truth@.len(),
            n == predicted@.len(),
            fc == (|i: int| truth@[i]@ == predicted@[i]@),
            i <= n,
            correct == count_rows(i as nat, fc),
        decreases n - i,
    {
        proof {
            lemma_count_rows_step(i as nat, fc);
            lemma_count_rows_bound(i as nat, fc);
        }
        if same_text(truth[i].as_str(), predicted[i].as_str()) {
            correct += 1;
        }
        i += 1;
    }
    let from_truth = distinct_labels(truth);
    let from_predictions = distinct_labels(predicted);
    let names = union_labels(&from_truth, &from_predictions);
    let mut labels: Vec<LabelCounts> = Vec::new();
    let mut k: usize = 0;
    while k < names.len()
        invariant
            n == truth@.len(),
            n == predicted@.len(),
            k <= names@.len(),
            labels@.len() == k,
            forall|a: int| 0 <= a < k ==> #[trigger] labels@[a].label@ == names@[a]@,
            forall|a: int|
                0 <= a < k ==> {
                    let l = #[trigger] labels@[a];
                    let x = l.label@;
                    &&& l.true_positives == count_rows(n as nat, |i: int| truth@[i]@ == x && predicted@[i]@ == x)
                    &&& l.false_positives == count_rows(n as nat, |i: int| truth@[i]@ != x && predicted@[i]@ == x)
                    &&& l.false_negatives == count_rows(n as nat, |i: int| truth@[i]@ == x && predicted@[i]@ != x)
                },
        decreases names.len() - k,
    {
        let (tp, fp, fneg) = count_label(truth, predicted, names[k].as_str());
        labels.push(LabelCounts {
            label: names[k].clone(),
            true_positives: tp,
            false_positives: fp,
            false_negatives: fneg,
        });
        k += 1;
    }
    let confusion = confusion_cells(truth, predicted);
    let c = ClassificationCounts { correct, total: n, labels, confusion };
    proof {
        assert forall|a: int, b: int| 0 <= a < b < c.labels@.len() implies id_lt(
            #[trigger] c.labels@[a].label@,
            #[trigger] c.labels@[b].label@,
        ) by {
            assert(id_lt(names@[a]@, names@[b]@));
        }
        lemma_labels_cover(truth@, predicted@, from_truth@, from_predictions@, names@);
        assert forall|x: Seq<char>|
            label_occurs(truth@, predicted@, x) <==> exists|a: int| 0 <= a < c.labels@.len() && #[trigger] c.labels@[a].label@ == x by {
            if label_occurs(truth@, predicted@, x) {
                assert(has_label(names@, x));
            }
            if has_label(names@, x) {
                assert(label_occurs(truth@, predicted@, x));
                let a = choose|a: int| 0 <= a < names@.len() && #[trigger] names@[a]@ == x;
                assert(c.labels@[a].label@ == x);
            }
            if exists|a: int| 0 <= a < c.labels@.len() && #[trigger] c.labels@[a].label@ == x {
                let a = choose|a: int| 0 <= a < c.labels@.len() && #[trigger] c.labels@[a].label@ == x;
                assert(names@[a]@ == x);
            }
        }
    }
    Ok(c)
}

proof fn lemma_count_rows_split(m: nat, f: spec_fn(int) -> bool, g: spec_fn(int) -> bool, h: spec_fn(int) -> bool)
    requires
        forall|i: int| 0 <= i < m ==> (#[trigger] h(i) <==> (f(i) || g(i))),
        forall|i: int| 0 <= i < m ==> !(#[trigger] f(i) && g(i)),
    ensures
        count_rows(m, h) == count_rows(m, f) + count_rows(m, g),
    decreases m,
{
    if m == 0 {
        lemma_count_rows_bound(0, f);
        lemma_count_rows_bound(0, g);
        lemma_count_rows_bound(0, h);
    } else {
        lemma_count_rows_split((m - 1) as nat, f, g, h);
        lemma_count_rows_step((m - 1) as nat, f);
        lemma_count_rows_step((m - 1) as nat, g);
        lemma_count_rows_step((m - 1) as nat, h);
        assert(h(m - 1) <==> (f(m - 1) || g(m - 1)));
        assert(!(f(m - 1) && g(m - 1)));
    }
}

/// For every label, its true positives and false negatives together are
/// the rows whose truth is that label, and its true positives and false
/// positives together are the rows predicted as that label.
pub proof fn lemma_label_counts_cover_support(truth: Seq<String>, predicted: Seq<String>, c: ClassificationCounts, a: int)
    requires
        truth.len() == predicted.len(),
        counts_of(truth, predicted, c),
        0 <= a < c.labels@.len(),
    ensures
        c.labels@[a].true_positives + c.labels@[a].false_negatives == count_rows(
            truth.len(),
            |i: int| truth[i]@ == c.labels@[a].label@,
        ),
        c.labels@[a].true_positives + c.labels@[a].false_positives == count_rows(
            truth.len(),
            |i: int| predicted[i]@ == c.labels@[a].label@,
        ),
{
    let x = c.labels@[a].label@;
    let n = truth.len();
    let l = c.labels@[a];
    assert(l.true_positives == count_rows(n, |i: int| truth[i]@ == x && predicted[i]@ == x));
    lemma_count_rows_split(
        n,
        |i: int| truth[i]@ == x && predicted[i]@ == x,
        |i: int| truth[i]@ == x && predicted[i]@ != x,
        |i: int| truth[i]@ == x,
    );
    lemma_count_rows_split(
        n,
        |i: int| truth[i]@ == x && predicted[i]@ == x,
        |i: int| truth[i]@ != x && predicted[i]@ == x,
        |i: int| predicted[i]@ == x,
    );
    assert((|i: int| truth[i]@ == x) =~= (|i: int| truth[i]@ == c.labels@[a].label@));
    assert((|i: int| predicted[i]@ == x) =~= (|i: int| predicted[i]@ == c.labels@[a].label@));
}

} // verus!
