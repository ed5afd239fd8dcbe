use vstd::prelude::*;
use vstd::string::*;
use vstd::utf8::encode_utf8;

use crate::artifact::{payload_digest_text, sha256_hex};
use crate::error::SdkError;
use crate::mixing::wrapping_mul64;
use crate::ontology::lemma_encode_injective;
use crate::order::{
    bytes_lt, compare_bytes, lemma_bytes_lt_asymmetric, lemma_bytes_lt_irreflexive,
    lemma_bytes_lt_total, lemma_bytes_lt_transitive, Order,
};
use crate::sorting::{lemma_rearranged_map, lemma_rearranged_positions, positions, sort_positions, PositionOrder};
use crate::text::{blank, is_blank};
use vstd::pervasive::VecAdditionalExecFns;
use vstd::seq_lib::group_to_multiset_ensures;

verus! {

/// The FNV-1a offset basis.
pub const FNV_OFFSET: u64 = 0xcbf2_9ce4_8422_2325;
/// The FNV-1a prime.
pub const FNV_PRIME: u64 = 0x0000_0100_0000_01B3;

/// The 64-bit FNV-1a hash of `bytes`, starting from the offset basis mixed
/// with `seed`.
pub open spec fn fnv1a(bytes: Seq<u8>, seed: u64) -> u64
    decreases bytes.len(),
{
    if bytes.len() == 0 {
        FNV_OFFSET ^ seed
    } else {
        wrapping_mul64(fnv1a(bytes.drop_last(), seed) ^ (bytes.last() as u64), FNV_PRIME)
    }
}

/// Computes `fnv1a(bytes, seed)`.
pub fn stable_hash(bytes: &[u8], seed: u64) -> (r: u64)
    ensures
        r == fnv1a(bytes@, seed),
{
    let mut hash: u64 = FNV_OFFSET ^ seed;
    let mut i: usize = 0;
    while i < bytes.len()
        invariant
            i <= bytes@.len(),
            hash == fnv1a(bytes@.take(i as int), seed),
        decreases bytes.len() - i,
    {
        proof {
            assert(bytes@.take(i + 1).drop_last() =~= bytes@.take(i as int));
        }
        hash = hash ^ (bytes[i] as u64);
        hash = hash.wrapping_mul(FNV_PRIME);
        i += 1;
    }
    proof {
        assert(bytes@.take(i as int) =~= bytes@);
    }
    hash
}

/// Identifies a dataset: its version, its number of rows and the SHA-256
/// digest of its serialized rows in hexadecimal.
#[derive(Debug, Clone)]
pub struct DatasetManifest {
    pub version: String,
    pub row_count: usize,
    pub sha256: String,
}

impl DatasetManifest {
    /// The manifest of a dataset of `row_count` rows serialized as
    /// `serialized_rows`; the version must not be blank.
    pub fn from_serialized(version: String, row_count: usize, serialized_rows: &[u8]) -> (r: Result<
        Self,
        SdkError,
    >)
        ensures
            r is Ok <==> row_count > 0 && !is_blank(version@),
            row_count == 0 ==> r == Err::<Self, SdkError>(SdkError::EmptyDataset),
            row_count > 0 && is_blank(version@) ==> (r matches Err(SdkError::InvalidArgument(m))
                && m@ == "dataset version must be non-empty"@),
            r matches Ok(m) ==> m.version@ == version@ && m.row_count == row_count && m.sha256@
                == payload_digest_text(serialized_rows@),
    {
        if row_count == 0 {
            return Err(SdkError::EmptyDataset);
        }
        if blank(version.as_str()) {
            return Err(SdkError::InvalidArgument(String::from_str("dataset version must be non-empty")));
        }
        let sha256 = sha256_hex(serialized_rows);
        Ok(DatasetManifest { version, row_count, sha256 })
    }
}

// ------------------------------------------------------------ grouped split

/// Groups are taken in the order of their seeded hash, ties broken by their
/// bytes.
pub open spec fn group_before(a: Seq<char>, b: Seq<char>, seed: u64) -> bool {
    let (ha, hb) = (fnv1a(encode_utf8(a), seed), fnv1a(encode_utf8(b), seed));
    ha < hb || (ha == hb && bytes_lt(encode_utf8(a), encode_utf8(b)))
}

proof fn lemma_group_before_facts(a: Seq<char>, b: Seq<char>, c: Seq<char>, seed: u64)
    ensures
        !group_before(a, a, seed),
        !(group_before(a, b, seed) && group_before(b, a, seed)),
        group_before(a, b, seed) && group_before(b, c, seed) ==> group_before(a, c, seed),
        a == b || group_before(a, b, seed) || group_before(b, a, seed),
{
    let (x, y, z) = (encode_utf8(a), encode_utf8(b), encode_utf8(c));
    lemma_bytes_lt_irreflexive(x);
    lemma_bytes_lt_asymmetric(x, y);
    lemma_bytes_lt_total(x, y);
    if bytes_lt(x, y) && bytes_lt(y, z) {
        lemma_bytes_lt_transitive(x, y, z);
    }
    if x == y {
        lemma_encode_injective(a, b);
    }
}

/// How many rows belong to groups taken before group `g`.
pub open spec fn rows_before(groups: Seq<Seq<char>>, g: Seq<char>, seed: u64) -> nat {
    groups.map_values(|x: Seq<char>| group_before(x, g, seed)).to_multiset().count(true)
}

/// No group is taken after `g`.
pub open spec fn is_last_group(groups: Seq<Seq<char>>, g: Seq<char>, seed: u64) -> bool {
    forall|i: int| 0 <= i < groups.len() ==> !group_before(g, #[trigger] groups[i], seed)
}

/// Group `g` goes to training: groups are taken in order while fewer rows
/// than `target_train` (and always at least one group) have been taken, and
/// the last group never is.
pub open spec fn in_train(groups: Seq<Seq<char>>, g: Seq<char>, target_train: usize, seed: u64) -> bool {
    &&& rows_before(groups, g, seed) < if target_train == 0 {
        1
    } else {
        target_train as int
    }
    &&& !is_last_group(groups, g, seed)
}

/// At least two different groups occur.
pub open spec fn two_groups(groups: Seq<Seq<char>>) -> bool {
    exists|i: int, j: int| 0 <= i < groups.len() && 0 <= j < groups.len() && #[trigger] groups[i] != #[trigger] groups[j]
}

pub open spec fn group_views(ids: Seq<String>) -> Seq<Seq<char>> {
    ids.map_values(|s: String| s@)
}

/// Rows ordered by their groups.
struct GroupOrder<'a> {
    ids: &'a [String],
    hashes: &'a [u64],
    seed: u64,
}

impl<'a> GroupOrder<'a> {
    spec fn key(&self, i: int) -> Seq<char> {
        self.ids@[i]@
    }
}

impl<'a> PositionOrder for GroupOrder<'a> {
    closed spec fn domain(&self) -> nat {
        if self.hashes@.len() == self.ids@.len() && forall|i: int|
            0 <= i < self.ids@.len() ==> #[trigger] self.hashes@[i] == fnv1a(encode_utf8(self.ids@[i]@), self.seed) {
            self.ids@.len()
        } else {
            0
        }
    }

    closed spec fn before(&self, i: int, j: int) -> bool {
        !group_before(self.key(j), self.key(i), self.seed)
    }

    proof fn lemma_total_preorder(&self) {
        assert forall|i: int, j: int, k: int|
            0 <= i < self.domain() && 0 <= j < self.domain() && 0 <= k < self.domain()
                && #[trigger] self.before(i, j) && #[trigger] self.before(j, k) implies self.before(
            i,
            k,
        ) by {
            lemma_group_before_facts(self.key(i), self.key(j), self.key(k), self.seed);
            lemma_group_before_facts(self.key(k), self.key(i), self.key(j), self.seed);
            lemma_group_before_facts(self.key(j), self.key(k), self.key(i), self.seed);
        }
        assert forall|i: int, j: int|
            0 <= i < self.domain() && 0 <= j < self.domain() implies #[trigger] self.before(i, j)
            || self.before(j, i) by {
            lemma_group_before_facts(self.key(i), self.key(j), self.key(j), self.seed);
        }
    }

    fn precedes(&self, i: usize, j: usize) -> (r: bool) {
        !group_precedes(self.ids, self.hashes, self.seed, j, i)
    }
}

/// Whether the group of row `a` is taken before the group of row `b`.
fn group_precedes(ids: &[String], hashes: &[u64], seed: u64, a: usize, b: usize) -> (r: bool)
    requires
        hashes@.len() == ids@.len(),
        forall|i: int| 0 <= i < ids@.len() ==> #[trigger] hashes@[i] == fnv1a(encode_utf8(ids@[i]@), seed),
        a < ids@.len(),
        b < ids@.len(),
    ensures
        r == group_before(ids@[a as int]@, ids@[b as int]@, seed),
{
    if hashes[a] != hashes[b] {
        return hashes[a] < hashes[b];
    }
    compare_bytes(ids[a].as_str().as_bytes(), ids[b].as_str().as_bytes()) == Order::Less
}

/// Whether rows `a` and `b` belong to the same group.
fn same_group(ids: &[String], hashes: &[u64], seed: u64, a: usize, b: usize) -> (r: bool)
    requires
        hashes@.len() == ids@.len(),
        forall|i: int| 0 <= i < ids@.len() ==> #[trigger] hashes@[i] == fnv1a(encode_utf8(ids@[i]@), seed),
        a < ids@.len(),
        b < ids@.len(),
    ensures
        r == (ids@[a as int]@ == ids@[b as int]@),
{
    if hashes[a] != hashes[b] {
        return false;
    }
    let o = compare_bytes(ids[a].as_str().as_bytes(), ids[b].as_str().as_bytes());
    proof {
        if o == Order::Equal {
            lemma_encode_injective(ids@[a as int]@, ids@[b as int]@);
        }
    }
    o == Order::Equal
}

/// A sequence whose first `k` entries are true and the rest false holds
/// `k` trues.
proof fn lemma_count_leading(s: Seq<bool>, k: int)
    requires
        0 <= k <= s.len(),
        forall|t: int| 0 <= t < s.len() ==> (#[trigger] s[t] <==> t < k),
    ensures
        s.to_multiset().count(true) == k,
    decreases s.len(),
{
    broadcast use group_to_multiset_ensures, vstd::multiset::group_multiset_axioms;

    if s.len() == 0 {
    } else {
        let s1 = s.drop_last();
        assert(s =~= s1.push(s.last()));
        if k == s.len() {
            lemma_count_leading(s1, k - 1);
        } else {
            lemma_count_leading(s1, k);
        }
    }
}

/// `q` arranges the rows so that their groups come in order.
spec fn sorted_groups(g: Seq<Seq<char>>, q: Seq<usize>, seed: u64) -> bool {
    &&& q.len() == g.len()
    &&& q.to_multiset() == positions(0, g.len() as int).to_multiset()
    &&& q.no_duplicates()
    &&& forall|x: int| 0 <= x < g.len() ==> #[trigger] q.contains(x as usize)
    &&& forall|t: int| 0 <= t < g.len() ==> #[trigger] q[t] < g.len()
    &&& forall|a: int, b: int|
        0 <= a < b < g.len() ==> !group_before(#[trigger] g[q[b] as int], #[trigger] g[q[a] as int], seed)
}

/// The run `g0..g1` of one group in sorted order: as many rows come before
/// its group as the run's start, and it is last exactly when it ends the rows.
proof fn lemma_run_facts(g: Seq<Seq<char>>, q: Seq<usize>, seed: u64, g0: int, g1: int)
    requires
        sorted_groups(g, q, seed),
        g.len() <= usize::MAX,
        0 <= g0 < g1 <= g.len(),
        forall|t: int| g0 <= t < g1 ==> #[trigger] g[q[t] as int] == g[q[g0] as int],
        0 < g0 ==> g[q[g0 - 1] as int] != g[q[g0] as int],
        g1 < g.len() ==> g[q[g1] as int] != g[q[g0] as int],
    ensures
        rows_before(g, g[q[g0] as int], seed) == g0,
        is_last_group(g, g[q[g0] as int], seed) == (g1 == g.len()),
{
    let n = g.len() as int;
    let w = g[q[g0] as int];
    lemma_group_before_facts(w, w, w, seed);
    if g1 < n {
        assert(!group_before(g[q[g1] as int], g[q[g0] as int], seed));
        lemma_group_before_facts(w, g[q[g1] as int], w, seed);
    }
    assert forall|t: int| 0 <= t < n implies (group_before(#[trigger] g[q[t] as int], w, seed) <==> t < g0) by {
        if t < g0 {
            let u = g[q[g0 - 1] as int];
            assert(!group_before(w, u, seed));
            lemma_group_before_facts(u, w, w, seed);
            if t < g0 - 1 {
                assert(!group_before(u, g[q[t] as int], seed));
                lemma_group_before_facts(g[q[t] as int], u, w, seed);
                lemma_group_before_facts(u, g[q[t] as int], w, seed);
            }
        } else if t >= g1 {
            assert(!group_before(g[q[t] as int], g[q[g0] as int], seed));
        }
    }
    let f = |k: usize| group_before(g[k as int], w, seed);
    lemma_rearranged_map(q, positions(0, n), f);
    assert(positions(0, n).map_values(f) =~= g.map_values(|x: Seq<char>| group_before(x, w, seed)));
    lemma_count_leading(q.map_values(f), g0);
    if g1 == n {
        assert forall|x: int| 0 <= x < n implies !group_before(w, #[trigger] g[x], seed) by {
            assert(q.contains(x as usize));
            let t = choose|t: int| 0 <= t < n && q[t] == x as usize;
            if t >= g0 {
                assert(g[q[t] as int] == w);
            } else {
                assert(group_before(g[q[t] as int], w, seed));
                lemma_group_before_facts(w, g[x], w, seed);
            }
        }
    } else {
        assert(group_before(w, g[q[g1] as int], seed));
    }
}

/// The rows of each group go to one side: to training for the first groups
/// in hash order, until at least `target_train` rows (and at least one
/// group) are taken, never for the last group; `true` marks training.
pub fn grouped_split_plan(group_ids: &[String], target_train: usize, seed: u64) -> (r: Result<
    Vec<bool>,
    SdkError,
>)
    ensures
        ({
            let g = group_views(group_ids@);
            &&& r is Ok <==> g.len() > 0 && two_groups(g)
            &&& g.len() == 0 ==> r == Err::<Vec<bool>, SdkError>(SdkError::EmptyDataset)
            &&& g.len() > 0 && !two_groups(g) ==> (r matches Err(SdkError::InvalidArgument(m)) && m@
                == "grouped split requires at least two groups"@)
            &&& r matches Ok(flags) ==> flags@.len() == g.len() && forall|i: int|
                0 <= i < g.len() ==> #[trigger] flags@[i] == in_train(g, g[i], target_train, seed)
        }),
{
    let ghost g = group_views(group_ids@);
    let n = group_ids.len();
    if n == 0 {
        return Err(SdkError::EmptyDataset);
    }
    let mut hashes: Vec<u64> = Vec::new();
    let mut i: usize = 0;
    while i < n
        invariant
            n == group_ids@.len(),
            i <= n,
            hashes@.len() == i,
            forall|k: int| 0 <= k < i ==> #[trigger] hashes@[k] == fnv1a(encode_utf8(group_ids@[k]@), seed),
        decreases n - i,
    {
        hashes.push(stable_hash(group_ids[i].as_str().as_bytes(), seed));
        i += 1;
    }
    let o = GroupOrder { ids: group_ids, hashes: hashes.as_slice(), seed };
    let q = sort_positions(&o, 0, n);
    proof {
        lemma_rearranged_positions(q@, 0, n as int);
        assert forall|k: int| 0 <= k < n implies #[trigger] g[k] == group_ids@[k]@ by {}
        assert forall|a: int, b: int| 0 <= a < b < n implies !group_before(
            #[trigger] g[q@[b] as int],
            #[trigger] g[q@[a] as int],
            seed,
        ) by {
            assert(o.before(q@[a] as int, q@[b] as int));
        }
        assert(sorted_groups(g, q@, seed));
    }
    let threshold: usize = if target_train == 0 {
        1
    } else {
        target_train
    };
    let mut flags: Vec<bool> = Vec::new();
    let mut k: usize = 0;
    while k < n
        invariant
            k <= n,
            flags@.len() == k,
        decreases n - k,
    {
        flags.push(false);
        k += 1;
    }
    let mut runs: usize = 0;
    let mut g0: usize = 0;
    while g0 < n
        invariant
            n == group_ids@.len(),
            g == group_views(group_ids@),
            hashes@.len() == n,
            forall|k: int| 0 <= k < n ==> #[trigger] hashes@[k] == fnv1a(encode_utf8(group_ids@[k]@), seed),
            forall|k: int| 0 <= k < n ==> #[trigger] g[k] == group_ids@[k]@,
            sorted_groups(g, q@, seed),
            threshold == if target_train == 0 { 1 } else { target_train },
            flags@.len() == n,
            g0 <= n,
            0 < g0 < n ==> g[q@[g0 - 1] as int] != g[q@[g0 as int] as int],
            runs <= g0,
            runs == 0 <==> g0 == 0,
            runs == 1 ==> forall|t: int| 0 <= t < g0 ==> #[trigger] g[q@[t] as int] == g[q@[0] as int],
            runs >= 2 ==> two_groups(g),
            forall|t: int| 0 <= t < g0 ==> #[trigger] flags@[q@[t] as int] == in_train(g, g[q@[t] as int], target_train, seed),
        decreases n - g0,
    {
        let mut g1 = g0 + 1;
        while g1 < n && same_group(group_ids, hashes.as_slice(), seed, q[g0], q[g1])
            invariant
                n == group_ids@.len(),
                g == group_views(group_ids@),
                hashes@.len() == n,
                forall|k: int| 0 <= k < n ==> #[trigger] hashes@[k] == fnv1a(encode_utf8(group_ids@[k]@), seed),
                forall|k: int| 0 <= k < n ==> #[trigger] g[k] == group_ids@[k]@,
                sorted_groups(g, q@, seed),
                g0 < g1 <= n,
                forall|t: int| g0 <= t < g1 ==> #[trigger] g[q@[t] as int] == g[q@[g0 as int] as int],
            decreases n - g1,
        {
            g1 += 1;
        }
        let ghost w = g[q@[g0 as int] as int];
        proof {
            lemma_run_facts(g, q@, seed, g0 as int, g1 as int);
        }
        let train = g0 < threshold && g1 < n;
        let mut t = g0;
        while t < g1
            invariant
                n == group_ids@.len(),
                g.len() == n,
                sorted_groups(g, q@, seed),
                flags@.len() == n,
                g0 <= t <= g1,
                g1 <= n,
                forall|u: int| 0 <= u < g0 ==> #[trigger] flags@[q@[u] as int] == in_train(g, g[q@[u] as int], target_train, seed),
                forall|u: int| g0 <= u < t ==> #[trigger] flags@[q@[u] as int] == train,
            decreases g1 - t,
        {
            let ghost before = flags@;
            flags.set(q[t], train);
            proof {
                assert forall|u: int| 0 <= u < t implies #[trigger] flags@[q@[u] as int] == before[q@[u] as int] by {
                    assert(q@[u] != q@[t as int]);
                }
            }
            t += 1;
        }
        proof {
            assert(train == in_train(g, w, target_train, seed));
            if runs == 1 {
                assert(g[q@[g0 - 1] as int] == g[q@[0] as int]);
                assert(g[q@[g0 - 1] as int] != g[q@[g0 as int] as int]);
                assert(two_groups(g));
            }
        }
        runs += 1;
        g0 = g1;
    }
    proof {
        assert forall|x: int| 0 <= x < n implies #[trigger] flags@[x] == in_train(g, g[x], target_train, seed) by {
            assert(q@.contains(x as usize));
            let t = choose|t: int| 0 <= t < n && q@[t] == x as usize;
            assert(flags@[q@[t] as int] == in_train(g, g[q@[t] as int], target_train, seed));
        }
        if runs == 1 {
            assert forall|x: int| 0 <= x < n implies #[trigger] g[x] == g[q@[0] as int] by {
                assert(q@.contains(x as usize));
                let t = choose|t: int| 0 <= t < n && q@[t] == x as usize;
                assert(g[q@[t] as int] == g[q@[0] as int]);
            }
            assert(!two_groups(g));
        }
    }
    if runs < 2 {
        return Err(SdkError::InvalidArgument(String::from_str("grouped split requires at least two groups")));
    }
    Ok(flags)
}

/// No group is taken before the group of row `m`.
pub open spec fn comes_first(g: Seq<Seq<char>>, m: int, seed: u64) -> bool {
    forall|i: int| 0 <= i < g.len() ==> !group_before(#[trigger] g[i], g[m], seed)
}

/// No group is taken after the group of row `m`.
pub open spec fn comes_last(g: Seq<Seq<char>>, m: int, seed: u64) -> bool {
    forall|i: int| 0 <= i < g.len() ==> !group_before(g[m], #[trigger] g[i], seed)
}

proof fn lemma_extreme_groups(g: Seq<Seq<char>>, seed: u64)
    requires
        g.len() > 0,
    ensures
        exists|m: int| 0 <= m < g.len() && #[trigger] comes_first(g, m, seed),
        exists|m: int| 0 <= m < g.len() && #[trigger] comes_last(g, m, seed),
    decreases g.len(),
{
    let x = g.last();
    let last = g.len() - 1;
    lemma_group_before_facts(x, x, x, seed);
    if g.len() == 1 {
        assert(comes_first(g, 0, seed));
        assert(comes_last(g, 0, seed));
    } else {
        let h = g.drop_last();
        lemma_extreme_groups(h, seed);
        let lo = choose|m: int| 0 <= m < h.len() && #[trigger] comes_first(h, m, seed);
        let hi = choose|m: int| 0 <= m < h.len() && #[trigger] comes_last(h, m, seed);
        if group_before(x, g[lo], seed) {
            assert forall|i: int| 0 <= i < g.len() implies !group_before(#[trigger] g[i], g[last], seed) by {
                if i < last {
                    assert(g[i] == h[i]);
                    assert(!group_before(h[i], h[lo], seed));
                    lemma_group_before_facts(g[i], x, g[lo], seed);
                }
            }
            assert(comes_first(g, last, seed));
        } else {
            assert forall|i: int| 0 <= i < g.len() implies !group_before(#[trigger] g[i], g[lo], seed) by {
                if i < last {
                    assert(g[i] == h[i]);
                }
            }
            assert(comes_first(g, lo, seed));
        }
        if group_before(g[hi], x, seed) {
            assert forall|i: int| 0 <= i < g.len() implies !group_before(g[last], #[trigger] g[i], seed) by {
                if i < last {
                    assert(g[i] == h[i]);
                    assert(!group_before(h[hi], h[i], seed));
                    lemma_group_before_facts(g[hi], x, g[i], seed);
                }
            }
            assert(comes_last(g, last, seed));
        } else {
            assert forall|i: int| 0 <= i < g.len() implies !group_before(g[hi], #[trigger] g[i], seed) by {
                if i < last {
                    assert(g[i] == h[i]);
                }
            }
            assert(comes_last(g, hi, seed));
        }
    }
}

/// With at least two groups a grouped split leaves neither side empty:
/// some row goes to training and some row does not.
pub proof fn lemma_split_sides_nonempty(g: Seq<Seq<char>>, target_train: usize, seed: u64)
    requires
        two_groups(g),
    ensures
        exists|i: int| 0 <= i < g.len() && in_train(g, #[trigger] g[i], target_train, seed),
        exists|j: int| 0 <= j < g.len() && !in_train(g, #[trigger] g[j], target_train, seed),
{
    lemma_extreme_groups(g, seed);
    let m = choose|m: int| 0 <= m < g.len() && #[trigger] comes_first(g, m, seed);
    let top = choose|m: int| 0 <= m < g.len() && #[trigger] comes_last(g, m, seed);
    let w = g[m];
    let f = |x: Seq<char>| group_before(x, w, seed);
    lemma_count_leading(g.map_values(f), 0);
    assert(rows_before(g, w, seed) == 0);
    let (i, j) = choose|i: int, j: int| 0 <= i < g.len() && 0 <= j < g.len() && #[trigger] g[i] != #[trigger] g[j];
    let k = if g[i] != w { i } else { j };
    assert(g[k] != w);
    lemma_group_before_facts(w, g[k], w, seed);
    assert(group_before(w, g[k], seed));
    assert(!is_last_group(g, w, seed));
    assert(in_train(g, g[m], target_train, seed));
    assert(is_last_group(g, g[top], seed));
    assert(!in_train(g, g[top], target_train, seed));
}

} // verus!
