//! The embedding operation: how the engine's answer becomes the record or the
//! batch that is handed back.
//!
//! The values of a vector are never read here, only moved, so every type is
//! generic in the type of a value.

use vstd::prelude::*;
use vstd::utf8::{decode_utf8, valid_utf8};
use crate::text::{decode_text, decode_texts, entry_text, entry_texts};

verus! {

/// What the engine is asked: the texts to embed, and its own choice of batch
/// size and of chunking.
pub struct EmbedRequest {
    pub texts: Vec<String>,
    pub batch_size: Option<usize>,
    pub late_chunking: Option<bool>,
}

/// One result of the engine: a single dense vector, or one vector per token.
pub enum EmbeddingResult<T> {
    DenseVector(Vec<T>),
    MultiVector(Vec<Vec<T>>),
}

/// A dense vector record: the buffer of values and their number. A record
/// without a buffer has length 0.
pub struct EmbeddingVector<T> {
    pub data: Option<Vec<T>>,
    pub len: usize,
}

/// A batch of records and their number.
pub struct BatchEmbeddingResult<T> {
    pub vectors: Option<Vec<EmbeddingVector<T>>>,
    pub count: usize,
}

/// A vector record as a value of the model: its values, if it has a buffer,
/// and its recorded length.
pub struct VectorRecord<T> {
    pub data: Option<Seq<T>>,
    pub len: nat,
}

impl<T> VectorRecord<T> {
    /// The recorded length is the number of values, or 0 without a buffer.
    pub open spec fn wf(self) -> bool {
        match self.data {
            Some(values) => self.len == values.len(),
            None => self.len == 0,
        }
    }
}

impl<T> View for EmbeddingResult<T> {
    type V = Option<Seq<T>>;

    /// The values of a dense vector; nothing for any other result.
    open spec fn view(&self) -> Option<Seq<T>> {
        match self {
            EmbeddingResult::DenseVector(values) => Some(values@),
            EmbeddingResult::MultiVector(_) => None,
        }
    }
}

impl<T> DeepView for EmbeddingResult<T> {
    type V = Option<Seq<T>>;

    open spec fn deep_view(&self) -> Option<Seq<T>> {
        self@
    }
}

impl<T> View for EmbeddingVector<T> {
    type V = VectorRecord<T>;

    open spec fn view(&self) -> VectorRecord<T> {
        VectorRecord {
            data: match self.data {
                Some(values) => Some(values@),
                None => None,
            },
            len: self.len as nat,
        }
    }
}

impl<T> DeepView for EmbeddingVector<T> {
    type V = VectorRecord<T>;

    open spec fn deep_view(&self) -> VectorRecord<T> {
        self@
    }
}

impl<T> View for BatchEmbeddingResult<T> {
    type V = Seq<VectorRecord<T>>;

    /// The records of the batch; none where it holds no array.
    open spec fn view(&self) -> Seq<VectorRecord<T>> {
        match self.vectors {
            Some(vectors) => vectors.deep_view(),
            None => Seq::<VectorRecord<T>>::empty(),
        }
    }
}

impl<T> BatchEmbeddingResult<T> {
    /// The count is the number of records, and every record is well-formed.
    pub open spec fn wf(self) -> bool {
        &&& self.count == self@.len()
        &&& forall|i: int| 0 <= i < self@.len() ==> (#[trigger] self@[i]).wf()
    }
}

/// The record that stands for one result in a batch: the values of a dense
/// vector with their number, and an empty record without a buffer for any
/// other result.
pub open spec fn vector_of<T>(result: Option<Seq<T>>) -> VectorRecord<T> {
    match result {
        Some(values) => VectorRecord { data: Some(values), len: values.len() },
        None => VectorRecord { data: None, len: 0 },
    }
}

/// The records that stand for the results of a batch, in their order.
pub open spec fn batch_of<T>(results: Seq<Option<Seq<T>>>) -> Seq<VectorRecord<T>> {
    Seq::new(results.len(), |i: int| vector_of(results[i]))
}

/// The record that stands for the answer to a single text: that of the first
/// result where it is a dense vector, and none otherwise.
pub open spec fn single_of<T>(results: Seq<Option<Seq<T>>>) -> Option<VectorRecord<T>> {
    if results.len() > 0 && results[0] is Some {
        Some(vector_of(results[0]))
    } else {
        None
    }
}

/// Builds the request for a batch of texts: every text copied, a null one
/// as the empty string, in the order given.
pub fn embed_request(texts: &Vec<Option<Vec<u8>>>) -> (request: EmbedRequest)
    ensures
        request.texts.deep_view() == entry_texts(texts.deep_view()),
        request.texts@.len() == texts@.len(),
        forall|i: int|
            0 <= i < texts@.len() ==> (texts@[i] matches Some(bytes) ==> (valid_utf8(bytes@) ==> (
            #[trigger] request.texts@[i])@ == decode_utf8(bytes@))),
        request.batch_size is None,
        request.late_chunking is None,
{
    EmbedRequest { texts: decode_texts(texts), batch_size: None, late_chunking: None }
}

/// Builds the request for a single text: the text copied, a null one as the
/// empty string.
pub fn embed_text_request(text: &Option<Vec<u8>>) -> (request: EmbedRequest)
    ensures
        request.texts@.len() == 1,
        request.texts@[0]@ == entry_text(text.deep_view()),
        text matches Some(bytes) ==> (valid_utf8(bytes@) ==> request.texts@[0]@ == decode_utf8(
            bytes@,
        )),
        request.batch_size is None,
        request.late_chunking is None,
{
    let mut texts: Vec<String> = Vec::with_capacity(1);
    texts.push(decode_text(text));
    EmbedRequest { texts, batch_size: None, late_chunking: None }
}

/// Encodes one result for a batch, moving a dense vector's buffer into the
/// record.
pub fn encode_vector<T>(result: EmbeddingResult<T>) -> (record: EmbeddingVector<T>)
    ensures
        record@ == vector_of(result@),
        record@.wf(),
        result matches EmbeddingResult::DenseVector(values) ==> record.data == Some(values),
{
    match result {
        EmbeddingResult::DenseVector(values) => {
            let len: usize = values.len();
            EmbeddingVector { data: Some(values), len }
        },
        EmbeddingResult::MultiVector(_) => EmbeddingVector { data: None, len: 0 },
    }
}

/// Turns the engine's answer to a single text into the record handed back.
///
/// A failed call (`None`), an answer without results, and a first result that
/// is no dense vector all yield no record.
pub fn embed_text<T>(outcome: Option<Vec<EmbeddingResult<T>>>) -> (record: Option<
    EmbeddingVector<T>,
>)
    ensures
        record.deep_view() == match outcome {
            Some(results) => single_of(results.deep_view()),
            None => None,
        },
        record matches Some(r) ==> r@.wf(),
{
    match outcome {
        None => None,
        Some(results) => {
            let mut results = results;
            if results.len() == 0 {
                return None;
            }
            let first = results.swap_remove(0);
            match first {
                EmbeddingResult::DenseVector(values) => {
                    let len: usize = values.len();
                    Some(EmbeddingVector { data: Some(values), len })
                },
                EmbeddingResult::MultiVector(_) => None,
            }
        },
    }
}

/// Turns the engine's answer to a batch of texts into the batch handed back.
///
/// A failed call (`None`) yields no batch. Otherwise there is one record per
/// result, in the order of the results; a result that is no dense vector
/// yields an empty record at its position and leaves the others as they are.
///
/// The last clause says the same record by record, for callers that index
/// the array.
pub fn embed_text_batch<T>(outcome: Option<Vec<EmbeddingResult<T>>>) -> (batch: Option<
    BatchEmbeddingResult<T>,
>)
    ensures
        outcome is None <==> batch is None,
        outcome matches Some(results) ==> batch matches Some(b) && b.vectors is Some && b.wf()
            && b.count == results@.len() && b@ == batch_of(results.deep_view()),
        outcome matches Some(results) ==> (batch matches Some(b) ==> forall|k: int|
            0 <= k < results@.len() ==> (#[trigger] b.vectors->0@[k])@ == vector_of(
                results@[k]@,
            )),
{
    match outcome {
        None => None,
        Some(results) => {
            let ghost all = results.deep_view();
            let count: usize = results.len();
            let mut vectors: Vec<EmbeddingVector<T>> = Vec::with_capacity(count);
            for result in it: results
                invariant
                    it.seq().len() == all.len(),
                    forall|k: int| 0 <= k < all.len() ==> (#[trigger] it.seq()[k])@ == all[k],
                    vectors@.len() == it.index(),
                    forall|k: int|
                        0 <= k < vectors@.len() ==> (#[trigger] vectors@[k])@ == vector_of(all[k]),
            {
                vectors.push(encode_vector(result));
            }
            assert(vectors.deep_view() =~= batch_of(all));
            Some(BatchEmbeddingResult { vectors: Some(vectors), count })
        },
    }
}

/// A batch of one dense result holds exactly the record that the answer to a
/// single text yields for that result.
pub proof fn lemma_batch_of_one_is_single<T>(values: Seq<T>)
    ensures
        batch_of(seq![Some(values)]).len() == 1,
        single_of(seq![Some(values)]) == Some(batch_of(seq![Some(values)])[0]),
        batch_of(seq![Some(values)])[0].data == Some(values),
{
}

/// A batch call that the engine answers with one result per text yields one
/// record per text, in the order of the texts: the record of a dense result
/// holds that result's own values, the record of any other result is empty.
pub proof fn lemma_batch_keeps_order<T>(
    texts: Seq<Option<Seq<u8>>>,
    results: Seq<Option<Seq<T>>>,
    i: int,
)
    requires
        results.len() == entry_texts(texts).len(),
        0 <= i < texts.len(),
    ensures
        batch_of(results).len() == texts.len(),
        batch_of(results)[i] == vector_of(results[i]),
        results[i] matches Some(values) ==> batch_of(results)[i].data == Some(values)
            && batch_of(results)[i].len == values.len(),
        results[i] is None ==> batch_of(results)[i].data is None && batch_of(results)[i].len == 0,
{
}

/// The engine is asked the same for a single text as for a batch of that one
/// text.
pub proof fn lemma_request_of_one_is_single(text: Option<Seq<u8>>)
    ensures
        entry_texts(seq![text]) == seq![entry_text(text)],
{
    assert(entry_texts(seq![text]) =~= seq![entry_text(text)]);
}

} // verus!
