//! Reclamation: which allocations are released, and in which order, when the
//! caller hands a result back.
//!
//! A result comes back as a description of what its records hold. The
//! functions here decide the releases; performing them is left to the caller
//! of this library.

use vstd::prelude::*;
use crate::embedding::{batch_of, VectorRecord};

verus! {

/// One allocation to release.
#[derive(Clone, Copy, PartialEq, Eq, Debug)]
pub enum Release {
    /// The buffer of values of the record at `position`, `len` values long.
    Values { position: usize, len: usize },
    /// The text of the record at `position`.
    Text { position: usize },
    /// The array of `count` records.
    Records { count: usize },
    /// The outer record of the result.
    Outer,
}

/// What a vector record holds when it comes back: whether it has a buffer,
/// and the length recorded in it.
#[derive(Clone, Copy, PartialEq, Eq, Debug)]
pub struct VectorShape {
    pub has_data: bool,
    pub len: usize,
}

/// What a batch of vectors holds when it comes back: its records, or no array.
pub struct BatchShape {
    pub vectors: Option<Vec<VectorShape>>,
}

/// What a batch of rerank records holds when it comes back: for each record
/// whether it has a text, or no array.
pub struct RerankShape {
    pub texts: Option<Vec<bool>>,
}

/// The buffers to release for a sequence of records: those of the records
/// that have one, in the order of the records, each with its own length.
pub open spec fn value_releases(vectors: Seq<VectorShape>) -> Seq<Release>
    decreases vectors.len(),
{
    if vectors.len() == 0 {
        Seq::<Release>::empty()
    } else if vectors.last().has_data {
        value_releases(vectors.drop_last()).push(
            Release::Values { position: (vectors.len() - 1) as usize, len: vectors.last().len },
        )
    } else {
        value_releases(vectors.drop_last())
    }
}

/// The texts to release for a sequence of records: those of the records that
/// have one, in the order of the records.
pub open spec fn text_releases(texts: Seq<bool>) -> Seq<Release>
    decreases texts.len(),
{
    if texts.len() == 0 {
        Seq::<Release>::empty()
    } else if texts.last() {
        text_releases(texts.drop_last()).push(
            Release::Text { position: (texts.len() - 1) as usize },
        )
    } else {
        text_releases(texts.drop_last())
    }
}

/// The releases for a single vector record: the outer record, then its
/// buffer where it has one. Nothing for a null record.
pub open spec fn vector_releases(record: Option<VectorShape>) -> Seq<Release> {
    match record {
        None => Seq::<Release>::empty(),
        Some(shape) => if shape.has_data {
            seq![Release::Outer, Release::Values { position: 0, len: shape.len }]
        } else {
            seq![Release::Outer]
        },
    }
}

impl View for BatchShape {
    type V = Option<Seq<VectorShape>>;

    open spec fn view(&self) -> Option<Seq<VectorShape>> {
        match self.vectors {
            Some(vectors) => Some(vectors@),
            None => None,
        }
    }
}

impl View for RerankShape {
    type V = Option<Seq<bool>>;

    open spec fn view(&self) -> Option<Seq<bool>> {
        match self.texts {
            Some(texts) => Some(texts@),
            None => None,
        }
    }
}

/// The releases for a batch of vectors with these records: every buffer,
/// then the array, then the outer record. Only the outer record where there
/// is no array.
pub open spec fn batch_releases(vectors: Option<Seq<VectorShape>>) -> Seq<Release> {
    match vectors {
        None => seq![Release::Outer],
        Some(records) => value_releases(records) + seq![
            Release::Records { count: records.len() as usize },
            Release::Outer,
        ],
    }
}

/// The releases for a batch of rerank records with these texts: every text,
/// then the array, then the outer record. Only the outer record where there
/// is no array.
pub open spec fn rerank_releases(texts: Option<Seq<bool>>) -> Seq<Release> {
    match texts {
        None => seq![Release::Outer],
        Some(records) => text_releases(records) + seq![
            Release::Records { count: records.len() as usize },
            Release::Outer,
        ],
    }
}

/// Decides the releases for a single vector record that comes back.
pub fn free_vector(record: &Option<VectorShape>) -> (plan: Vec<Release>)
    ensures
        plan@ == vector_releases(*record),
        *record is None ==> plan@.len() == 0,
{
    let mut plan: Vec<Release> = Vec::new();
    match record {
        None => {},
        Some(shape) => {
            plan.push(Release::Outer);
            if shape.has_data {
                plan.push(Release::Values { position: 0, len: shape.len });
            }
        },
    }
    assert(plan@ =~= vector_releases(*record));
    plan
}

/// Decides the releases for a batch of vectors that comes back.
///
/// A null result asks for nothing. A batch without an array asks for its
/// outer record alone: no record is looked at.
pub fn free_batch_result(result: &Option<BatchShape>) -> (plan: Vec<Release>)
    ensures
        plan@ == match *result {
            Some(shape) => batch_releases(shape@),
            None => Seq::<Release>::empty(),
        },
        result matches Some(shape) ==> (shape.vectors is None ==> plan@ == seq![Release::Outer]),
{
    let mut plan: Vec<Release> = Vec::new();
    match result {
        None => {},
        Some(shape) => {
            match &shape.vectors {
                None => {},
                Some(vectors) => {
                    let mut i: usize = 0;
                    while i < vectors.len()
                        invariant
                            i <= vectors@.len(),
                            plan@ == value_releases(vectors@.take(i as int)),
                        decreases vectors@.len() - i,
                    {
                        assert(vectors@.take(i + 1).drop_last() == vectors@.take(i as int));
                        if vectors[i].has_data {
                            plan.push(Release::Values { position: i, len: vectors[i].len });
                        }
                        i += 1;
                    }
                    assert(vectors@.take(i as int) == vectors@);
                    plan.push(Release::Records { count: vectors.len() });
                },
            }
            plan.push(Release::Outer);
        },
    }
    assert(plan@ =~= match *result {
        Some(shape) => batch_releases(shape@),
        None => Seq::<Release>::empty(),
    });
    plan
}

/// Decides the releases for a batch of rerank records that comes back.
///
/// A null result asks for nothing. A batch without an array asks for its
/// outer record alone: no record is looked at.
pub fn free_rerank_result(result: &Option<RerankShape>) -> (plan: Vec<Release>)
    ensures
        plan@ == match *result {
            Some(shape) => rerank_releases(shape@),
            None => Seq::<Release>::empty(),
        },
        result matches Some(shape) ==> (shape.texts is None ==> plan@ == seq![Release::Outer]),
{
    let mut plan: Vec<Release> = Vec::new();
    match result {
        None => {},
        Some(shape) => {
            match &shape.texts {
                None => {},
                Some(texts) => {
                    let mut i: usize = 0;
                    while i < texts.len()
                        invariant
                            i <= texts@.len(),
                            plan@ == text_releases(texts@.take(i as int)),
                        decreases texts@.len() - i,
                    {
                        assert(texts@.take(i + 1).drop_last() == texts@.take(i as int));
                        if texts[i] {
                            plan.push(Release::Text { position: i });
                        }
                        i += 1;
                    }
                    assert(texts@.take(i as int) == texts@);
                    plan.push(Release::Records { count: texts.len() });
                },
            }
            plan.push(Release::Outer);
        },
    }
    assert(plan@ =~= match *result {
        Some(shape) => rerank_releases(shape@),
        None => Seq::<Release>::empty(),
    });
    plan
}

/// The record that a release of a buffer or of a text is for.
pub open spec fn position_of(release: Release) -> int {
    match release {
        Release::Values { position, .. } => position as int,
        Release::Text { position } => position as int,
        Release::Records { .. } => -1,
        Release::Outer => -1,
    }
}

/// What a vector record will hold when it comes back.
pub open spec fn shape_of<T>(record: VectorRecord<T>) -> VectorShape {
    VectorShape { has_data: record.data is Some, len: record.len as usize }
}

/// What the records of a batch will hold when they come back.
pub open spec fn shapes_of<T>(records: Seq<VectorRecord<T>>) -> Seq<VectorShape> {
    Seq::new(records.len(), |i: int| shape_of(records[i]))
}

/// Every buffer is released exactly once and with its own length: each
/// release is for a record that has a buffer, the releases go through the
/// records in ascending order, so none comes twice, and every record that has
/// a buffer has its release.
pub proof fn lemma_values_released_once(vectors: Seq<VectorShape>)
    requires
        vectors.len() <= usize::MAX,
    ensures
        forall|k: int|
            0 <= k < value_releases(vectors).len() ==> {
                let p = position_of(#[trigger] value_releases(vectors)[k]);
                &&& 0 <= p < vectors.len()
                &&& vectors[p].has_data
                &&& value_releases(vectors)[k] == (Release::Values {
                    position: p as usize,
                    len: vectors[p].len,
                })
            },
        forall|a: int, b: int|
            #![trigger value_releases(vectors)[a], value_releases(vectors)[b]]
            0 <= a < b < value_releases(vectors).len() ==> position_of(value_releases(vectors)[a])
                < position_of(value_releases(vectors)[b]),
        forall|i: int|
            0 <= i < vectors.len() && (#[trigger] vectors[i]).has_data ==> value_releases(
                vectors,
            ).contains(Release::Values { position: i as usize, len: vectors[i].len }),
    decreases vectors.len(),
{
    if vectors.len() > 0 {
        let rest = vectors.drop_last();
        let plan = value_releases(vectors);
        let inner = value_releases(rest);
        lemma_values_released_once(rest);
        assert forall|i: int| 0 <= i < vectors.len() && (#[trigger] vectors[i]).has_data implies plan.contains(
            Release::Values { position: i as usize, len: vectors[i].len },
        ) by {
            let wanted = Release::Values { position: i as usize, len: vectors[i].len };
            if i < rest.len() {
                assert(rest[i].has_data);
                assert(inner.contains(wanted));
                let k = choose|k: int| 0 <= k < inner.len() && inner[k] == wanted;
                assert(plan[k] == wanted);
            } else {
                assert(plan[plan.len() - 1] == wanted);
            }
        }
        assert forall|k: int| 0 <= k < plan.len() implies {
            let p = position_of(#[trigger] plan[k]);
            &&& 0 <= p < vectors.len()
            &&& vectors[p].has_data
            &&& plan[k] == (Release::Values { position: p as usize, len: vectors[p].len })
        } by {
            if k < inner.len() {
                assert(plan[k] == inner[k]);
                assert(rest[position_of(inner[k])] == vectors[position_of(inner[k])]);
            }
        }
        assert forall|a: int, b: int|
            #![trigger plan[a], plan[b]]
            0 <= a < b < plan.len() implies position_of(plan[a]) < position_of(plan[b]) by {
            assert(plan[a] == inner[a]);
            if b < inner.len() {
                assert(plan[b] == inner[b]);
            }
        }
    }
}

/// Every text is released exactly once: each release is for a record that
/// has a text, the releases go through the records in ascending order, so
/// none comes twice, and every record that has a text has its release.
pub proof fn lemma_texts_released_once(texts: Seq<bool>)
    requires
        texts.len() <= usize::MAX,
    ensures
        forall|k: int|
            0 <= k < text_releases(texts).len() ==> {
                let p = position_of(#[trigger] text_releases(texts)[k]);
                &&& 0 <= p < texts.len()
                &&& texts[p]
                &&& text_releases(texts)[k] == (Release::Text { position: p as usize })
            },
        forall|a: int, b: int|
            #![trigger text_releases(texts)[a], text_releases(texts)[b]]
            0 <= a < b < text_releases(texts).len() ==> position_of(text_releases(texts)[a])
                < position_of(text_releases(texts)[b]),
        forall|i: int|
            0 <= i < texts.len() && #[trigger] texts[i] ==> text_releases(texts).contains(
                Release::Text { position: i as usize },
            ),
    decreases texts.len(),
{
    if texts.len() > 0 {
        let rest = texts.drop_last();
        let plan = text_releases(texts);
        let inner = text_releases(rest);
        lemma_texts_released_once(rest);
        assert forall|i: int| 0 <= i < texts.len() && #[trigger] texts[i] implies plan.contains(
            Release::Text { position: i as usize },
        ) by {
            let wanted = Release::Text { position: i as usize };
            if i < rest.len() {
                assert(rest[i]);
                assert(inner.contains(wanted));
                let k = choose|k: int| 0 <= k < inner.len() && inner[k] == wanted;
                assert(plan[k] == wanted);
            } else {
                assert(plan[plan.len() - 1] == wanted);
            }
        }
        assert forall|k: int| 0 <= k < plan.len() implies {
            let p = position_of(#[trigger] plan[k]);
            &&& 0 <= p < texts.len()
            &&& texts[p]
            &&& plan[k] == (Release::Text { position: p as usize })
        } by {
            if k < inner.len() {
                assert(plan[k] == inner[k]);
                assert(rest[position_of(inner[k])] == texts[position_of(inner[k])]);
            }
        }
        assert forall|a: int, b: int|
            #![trigger plan[a], plan[b]]
            0 <= a < b < plan.len() implies position_of(plan[a]) < position_of(plan[b]) by {
            assert(plan[a] == inner[a]);
            if b < inner.len() {
                assert(plan[b] == inner[b]);
            }
        }
    }
}

/// What the embedding operation hands out, reclamation takes back: when the
/// batch made of the engine's results returns, every dense result has the
/// release of its buffer, with the length of its vector, and no release is
/// for any other result.
pub proof fn lemma_batch_is_reclaimed<T>(results: Seq<Option<Seq<T>>>)
    requires
        results.len() <= usize::MAX,
        forall|i: int|
            0 <= i < results.len() ==> ((#[trigger] results[i]) matches Some(values)
                ==> values.len() <= usize::MAX),
    ensures
        forall|i: int|
            0 <= i < results.len() && (#[trigger] results[i]) is Some ==> value_releases(
                shapes_of(batch_of(results)),
            ).contains(
                Release::Values { position: i as usize, len: results[i]->0.len() as usize },
            ),
        forall|k: int|
            0 <= k < value_releases(shapes_of(batch_of(results))).len() ==> {
                let p = position_of(#[trigger] value_releases(shapes_of(batch_of(results)))[k]);
                0 <= p < results.len() && results[p] is Some
            },
{
    let shapes = shapes_of(batch_of(results));
    lemma_values_released_once(shapes);
    assert forall|i: int|
        0 <= i < results.len() && (#[trigger] results[i]) is Some implies value_releases(
        shapes,
    ).contains(
        Release::Values { position: i as usize, len: results[i]->0.len() as usize },
    ) by {
        assert(shapes[i].has_data);
    }
}

/// What the reranking operation hands out, reclamation takes back: every
/// record of its batch holds a text, and when such a batch returns there is
/// one release per record, in the order of the records.
pub proof fn lemma_rerank_is_reclaimed(texts: Seq<bool>)
    requires
        texts.len() <= usize::MAX,
        forall|i: int| 0 <= i < texts.len() ==> texts[i],
    ensures
        text_releases(texts).len() == texts.len(),
        forall|k: int|
            0 <= k < texts.len() ==> #[trigger] text_releases(texts)[k] == (Release::Text {
                position: k as usize,
            }),
    decreases texts.len(),
{
    if texts.len() > 0 {
        lemma_rerank_is_reclaimed(texts.drop_last());
    }
}

} // verus!
