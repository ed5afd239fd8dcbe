use vstd::prelude::*;
use vstd::string::*;
use vstd::utf8::encode_utf8;

use crate::error::SdkError;
use crate::ontology::{lemma_encode_injective, MAX_LABEL_BYTES};
use crate::order::{bytes_lt, compare_bytes, lemma_bytes_lt_asymmetric, lemma_bytes_lt_total, lemma_bytes_lt_transitive, Order};
use crate::sorting::{lemma_rearranged_positions, sort_positions, PositionOrder};
use crate::text::{text_error, text_ok, validate_text};

verus! {

pub const DEFAULT_MAX_FEATURES: usize = 65_536;
pub const DEFAULT_MAX_EMBEDDING_DIM: usize = 8_192;
/// The most class scores a prediction may carry.
pub const MAX_CLASS_SCORES: usize = 4_096;

/// An identifier or class label is not blank and holds at most 4096 bytes.
pub fn validate_label(field: &str, value: &str) -> (r: Result<(), SdkError>)
    ensures
        r is Ok <==> text_ok(value@, MAX_LABEL_BYTES as nat),
        r matches Err(e) ==> text_error(field@, value@, MAX_LABEL_BYTES, e),
{
    validate_text(field, value, MAX_LABEL_BYTES)
}

/// A feature or embedding vector of `len` values is non-empty and at most
/// `max_dim` long.
pub fn validate_vector_len(len: usize, max_dim: usize) -> (r: Result<(), SdkError>)
    ensures
        r is Ok <==> 1 <= len <= max_dim,
        len == 0 ==> r == Err::<(), SdkError>(SdkError::EmptyFeatures),
        len > 0 && len > max_dim ==> r == Err::<(), SdkError>(
            SdkError::DimensionLimit { actual: len, max: max_dim },
        ),
{
    if len == 0 {
        return Err(SdkError::EmptyFeatures);
    }
    if len > max_dim {
        return Err(SdkError::DimensionLimit { actual: len, max: max_dim });
    }
    Ok(())
}

/// Two of the labels are the same.
pub open spec fn has_duplicate(labels: Seq<String>) -> bool {
    exists|i: int, j: int| 0 <= i < j < labels.len() && #[trigger] labels[i]@ == #[trigger] labels[j]@
}

/// Labels ordered by their bytes.
struct LabelOrder<'a> {
    labels: &'a [String],
}

impl<'a> PositionOrder for LabelOrder<'a> {
    closed spec fn domain(&self) -> nat {
        self.labels@.len()
    }

    closed spec fn before(&self, i: int, j: int) -> bool {
        !bytes_lt(encode_utf8(self.labels@[j]@), encode_utf8(self.labels@[i]@))
    }

    proof fn lemma_total_preorder(&self) {
        assert forall|i: int, j: int, k: int|
            0 <= i < self.domain() && 0 <= j < self.domain() && 0 <= k < self.domain()
                && #[trigger] self.before(i, j) && #[trigger] self.before(j, k) implies self.before(
            i,
            k,
        ) by {
            let (a, b, c) = (
                encode_utf8(self.labels@[i]@),
                encode_utf8(self.labels@[j]@),
                encode_utf8(self.labels@[k]@),
            );
            lemma_bytes_lt_total(a, b);
            lemma_bytes_lt_total(b, c);
            if bytes_lt(c, a) {
                if bytes_lt(a, b) {
                    lemma_bytes_lt_transitive(c, a, b);
                } else {
                    assert(a == b);
                }
            }
        }
        assert forall|i: int, j: int|
            0 <= i < self.domain() && 0 <= j < self.domain() implies #[trigger] self.before(i, j)
            || self.before(j, i) by {
            lemma_bytes_lt_asymmetric(encode_utf8(self.labels@[i]@), encode_utf8(self.labels@[j]@));
        }
    }

    fn precedes(&self, i: usize, j: usize) -> (r: bool) {
        let o = compare_bytes(self.labels[j].as_str().as_bytes(), self.labels[i].as_str().as_bytes());
        o != Order::Less
    }
}

/// The class labels of a prediction: at least one, at most 4096, none twice.
pub fn check_score_labels(labels: &[String]) -> (r: Result<(), SdkError>)
    ensures
        r is Ok <==> 1 <= labels@.len() <= MAX_CLASS_SCORES && !has_duplicate(labels@),
        labels@.len() == 0 ==> (r matches Err(SdkError::InvalidArgument(m)) && m@
            == "prediction requires at least one class score"@),
        labels@.len() > MAX_CLASS_SCORES ==> r == Err::<(), SdkError>(
            SdkError::DimensionLimit { actual: labels@.len() as usize, max: MAX_CLASS_SCORES },
        ),
        1 <= labels@.len() <= MAX_CLASS_SCORES && has_duplicate(labels@) ==> (r matches Err(
            SdkError::InvalidArgument(m),
        ) && m@ == "prediction contains duplicate class labels"@),
{
    if labels.len() == 0 {
        return Err(
            SdkError::InvalidArgument(String::from_str("prediction requires at least one class score")),
        );
    }
    if labels.len() > MAX_CLASS_SCORES {
        return Err(SdkError::DimensionLimit { actual: labels.len(), max: MAX_CLASS_SCORES });
    }
    let o = LabelOrder { labels };
    let p = sort_positions(&o, 0, labels.len());
    proof {
        lemma_rearranged_positions(p@, 0, labels@.len() as int);
    }
    let mut t: usize = 1;
    while t < p.len()
        invariant
            p.len() == labels@.len(),
            labels@.len() <= MAX_CLASS_SCORES,
            o.labels == labels,
            1 <= t <= p.len(),
            forall|a: int, b: int| 0 <= a < b < t ==> labels@[p@[a] as int]@ != labels@[p@[b] as int]@,
            forall|a: int, b: int| 0 <= a < b < p.len() ==> #[trigger] o.before(p@[a] as int, p@[b] as int),
            forall|k: int| 0 <= k < p.len() ==> p@[k] < labels@.len(),
            p@.no_duplicates(),
            forall|x: int| 0 <= x < labels@.len() ==> #[trigger] p@.contains(x as usize),
        decreases p.len() - t,
    {
        let prev = &labels[p[t - 1]];
        let cur = &labels[p[t]];
        let c = compare_bytes(prev.as_str().as_bytes(), cur.as_str().as_bytes());
        if c == Order::Equal {
            proof {
                lemma_encode_injective(prev@, cur@);
                let (i, j) = if p@[t - 1] < p@[t as int] {
                    (p@[t - 1] as int, p@[t as int] as int)
                } else {
                    (p@[t as int] as int, p@[t - 1] as int)
                };
                assert(labels@[i]@ == labels@[j]@);
                assert(has_duplicate(labels@));
            }
            return Err(
                SdkError::InvalidArgument(String::from_str("prediction contains duplicate class labels")),
            );
        }
        proof {
            assert(prev@ == labels@[p@[t - 1] as int]@);
            assert(cur@ == labels@[p@[t as int] as int]@);
            assert(prev@ != cur@);
            assert forall|a: int, b: int| 0 <= a < b < t + 1 implies labels@[p@[a] as int]@ != labels@[p@[b] as int]@ by {
                if b == t && a < t - 1 {
                    let (x, y, z) = (
                        encode_utf8(labels@[p@[a] as int]@),
                        encode_utf8(labels@[p@[t - 1] as int]@),
                        encode_utf8(labels@[p@[b] as int]@),
                    );
                    assert(o.before(p@[a] as int, p@[t - 1] as int));
                    assert(o.before(p@[t - 1] as int, p@[b] as int));
                    lemma_bytes_lt_total(x, y);
                    if labels@[p@[a] as int]@ == labels@[p@[b] as int]@ {
                        assert(x == z);
                        assert(!bytes_lt(y, x));
                        assert(!bytes_lt(x, y));
                        assert(x == y);
                        lemma_encode_injective(labels@[p@[t - 1] as int]@, labels@[p@[b] as int]@);
                        assert(false);
                    }
                }
            }
        }
        t += 1;
    }
    proof {
        if has_duplicate(labels@) {
            let (i, j) = choose|i: int, j: int| 0 <= i < j < labels@.len() && #[trigger] labels@[i]@ == #[trigger] labels@[j]@;
            assert(p@.contains(i as usize));
            assert(p@.contains(j as usize));
            let a = choose|a: int| 0 <= a < p@.len() && p@[a] == i as usize;
            let b = choose|b: int| 0 <= b < p@.len() && p@[b] == j as usize;
            if a < b {
                assert(labels@[p@[a] as int]@ != labels@[p@[b] as int]@);
            } else {
                assert(labels@[p@[b] as int]@ != labels@[p@[a] as int]@);
            }
        }
    }
    Ok(())
}

} // verus!
