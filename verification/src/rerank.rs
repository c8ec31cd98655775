//! The reranking operation: what is handed to the engine, and how its answer
//! becomes the batch that is handed back.
//!
//! The engine answers with documents and scores, in an order of its own. A
//! record of the batch points at the place its document has in the list the
//! caller asked about, so the answer is first matched against that list.

use vstd::prelude::*;
use vstd::utf8::{decode_utf8, valid_utf8};
use crate::score::{score_key, score_rank};
use crate::text::{decode_text, decode_texts, entry_text, entry_texts};

verus! {

/// The number of candidates the engine is asked to consider at a time,
/// whatever the number of documents.
pub const RETRIEVAL_DEPTH: usize = 32;

/// What the engine is asked: one query, the candidate documents, and the
/// retrieval depth.
pub struct RerankRequest {
    pub queries: Vec<String>,
    pub documents: Vec<String>,
    pub depth: usize,
}

/// One document of the engine's answer, with the bit pattern of its score.
pub struct ScoredDocument {
    pub document: String,
    pub relevance_score: u32,
}

/// One record: a position, the bit pattern of the document's score, and a
/// copy of its text. In a batch the position is the document's place in the
/// list that was asked; in the ranking of a group it is the document's
/// position in that group.
pub struct RerankResult {
    pub index: usize,
    pub score: u32,
    pub text: String,
}

/// The batch handed back: the records and their number. An empty batch holds
/// no array at all.
pub struct BatchRerankResult {
    pub results: Option<Vec<RerankResult>>,
    pub count: usize,
}

/// A scored document as the ranking sees it: its text and the bit pattern of
/// its score.
pub struct ScoredText {
    pub document: Seq<char>,
    pub score: u32,
}

/// A record as the ranking sees it: the position it points at, the bit
/// pattern of its score, and its text.
pub struct RankedText {
    pub index: int,
    pub score: u32,
    pub text: Seq<char>,
}

impl View for ScoredDocument {
    type V = ScoredText;

    open spec fn view(&self) -> ScoredText {
        ScoredText { document: self.document@, score: self.relevance_score }
    }
}

impl DeepView for ScoredDocument {
    type V = ScoredText;

    open spec fn deep_view(&self) -> ScoredText {
        self@
    }
}

impl View for RerankResult {
    type V = RankedText;

    open spec fn view(&self) -> RankedText {
        RankedText { index: self.index as int, score: self.score, text: self.text@ }
    }
}

impl DeepView for RerankResult {
    type V = RankedText;

    open spec fn deep_view(&self) -> RankedText {
        self@
    }
}

impl View for BatchRerankResult {
    type V = Seq<RankedText>;

    /// The records of the batch; none where it holds no array.
    open spec fn view(&self) -> Seq<RankedText> {
        match self.results {
            Some(results) => results.deep_view(),
            None => Seq::<RankedText>::empty(),
        }
    }
}

impl BatchRerankResult {
    /// The count is the number of records, and the array is absent exactly
    /// when there are none.
    pub open spec fn wf(self) -> bool {
        &&& self.count == self@.len()
        &&& self.results is None <==> self.count == 0
    }
}

/// Every record points back at a document of the group and carries that
/// document's score and text.
pub open spec fn refers_back(group: Seq<ScoredText>, out: Seq<RankedText>) -> bool {
    forall|k: int|
        0 <= k < out.len() ==> {
            &&& 0 <= (#[trigger] out[k]).index < group.len()
            &&& out[k].score == group[out[k].index].score
            &&& out[k].text == group[out[k].index].document
        }
}

/// Some record points back at position `p`.
pub open spec fn has_record(out: Seq<RankedText>, p: int) -> bool {
    exists|k: int| 0 <= k < out.len() && (#[trigger] out[k]).index == p
}

/// Every document of the group has a record.
pub open spec fn covers(group: Seq<ScoredText>, out: Seq<RankedText>) -> bool {
    forall|p: int| 0 <= p < group.len() ==> #[trigger] has_record(out, p)
}

/// No record is followed by one with a larger score.
pub open spec fn descending(out: Seq<RankedText>) -> bool {
    forall|a: int, b: int|
        #![trigger out[a], out[b]]
        0 <= a < b < out.len() ==> score_key(out[a].score) >= score_key(out[b].score)
}

/// Records with equal scores keep the order their documents had in the group.
pub open spec fn stable(out: Seq<RankedText>) -> bool {
    forall|a: int, b: int|
        #![trigger out[a], out[b]]
        0 <= a < b < out.len() && score_key(out[a].score) == score_key(out[b].score)
            ==> out[a].index < out[b].index
}

/// `out` is the ranking of `group`: one record per document, each pointing
/// back at its document, ordered by descending score, equal scores in the
/// order of the group.
pub open spec fn is_ranking(group: Seq<ScoredText>, out: Seq<RankedText>) -> bool {
    &&& out.len() == group.len()
    &&& refers_back(group, out)
    &&& covers(group, out)
    &&& descending(out)
    &&& stable(out)
}

/// The group of the engine's answer that is used: the first one, or no
/// documents where the answer holds no group.
pub open spec fn first_group(groups: Seq<Seq<ScoredText>>) -> Seq<ScoredText> {
    if groups.len() > 0 {
        groups[0]
    } else {
        Seq::<ScoredText>::empty()
    }
}

/// Some document before the `n`-th has the place `p`.
pub open spec fn taken_before(places: Seq<int>, n: int, p: int) -> bool {
    exists|j: int| 0 <= j < n && #[trigger] places[j] == p
}

/// `places` gives the first documents of the group their places in the list
/// that was asked: each document has a place that holds its text, no two
/// documents share a place, and each has the first such place that no
/// earlier document of the group has. So where the list holds a text
/// several times, the documents with that text get its places in order.
pub open spec fn places_some(asked: Seq<Seq<char>>, group: Seq<ScoredText>, places: Seq<int>) -> bool {
    &&& places.len() <= group.len()
    &&& forall|i: int|
        0 <= i < places.len() ==> 0 <= #[trigger] places[i] < asked.len() && asked[places[i]]
            == group[i].document
    &&& forall|i: int, j: int|
        #![trigger places[i], places[j]]
        0 <= i < j < places.len() ==> places[i] != places[j]
    &&& forall|i: int, p: int|
        0 <= i < places.len() && 0 <= p < places[i] && asked[p] == group[i].document
            ==> #[trigger] taken_before(places, i, p)
}

/// `places` gives every document of the group its place in the list that
/// was asked.
pub open spec fn is_placing(asked: Seq<Seq<char>>, group: Seq<ScoredText>, places: Seq<int>) -> bool {
    places_some(asked, group, places) && places.len() == group.len()
}

/// `places` gives every document of the group a place of its own in the
/// list that was asked, one that holds its text.
pub open spec fn is_matching(asked: Seq<Seq<char>>, group: Seq<ScoredText>, places: Seq<int>) -> bool {
    &&& places.len() == group.len()
    &&& forall|i: int|
        0 <= i < places.len() ==> 0 <= #[trigger] places[i] < asked.len() && asked[places[i]]
            == group[i].document
    &&& forall|i: int, j: int|
        #![trigger places[i], places[j]]
        0 <= i < j < places.len() ==> places[i] != places[j]
}

/// The place `p` holds the text of the next document to place, and no
/// document placed so far has it.
pub open spec fn is_free(asked: Seq<Seq<char>>, group: Seq<ScoredText>, places: Seq<int>, p: int) -> bool {
    &&& 0 <= p < asked.len()
    &&& asked[p] == group[places.len() as int].document
    &&& !taken_before(places, places.len() as int, p)
}

/// The group answers the list that was asked: every document of the group
/// can be given its place. By `lemma_answers_is_matching` that is so exactly
/// when every document can be given a place of its own that holds its text.
pub open spec fn answers(asked: Seq<Seq<char>>, group: Seq<ScoredText>) -> bool {
    exists|places: Seq<int>| is_placing(asked, group, places)
}

/// The places as integers.
pub open spec fn as_places(places: Seq<usize>) -> Seq<int> {
    Seq::new(places.len(), |i: int| places[i] as int)
}

/// The records of a ranking of the group, each with the place of its
/// document in the list that was asked instead of its position in the group.
pub open spec fn placed(places: Seq<int>, ranking: Seq<RankedText>) -> Seq<RankedText> {
    Seq::new(
        ranking.len(),
        |k: int|
            RankedText {
                index: places[ranking[k].index],
                score: ranking[k].score,
                text: ranking[k].text,
            },
    )
}

/// The record carries the text and the score of some document of the group.
pub open spec fn is_of_group(group: Seq<ScoredText>, record: RankedText) -> bool {
    exists|g: int|
        0 <= g < group.len() && record.text == (#[trigger] group[g]).document && record.score
            == group[g].score
}

/// `out` is the answer to the list that was asked: the ranking of the group,
/// every record pointing at the place of its document in that list.
pub open spec fn is_answer(asked: Seq<Seq<char>>, group: Seq<ScoredText>, out: Seq<RankedText>) -> bool {
    exists|places: Seq<int>, ranking: Seq<RankedText>|
        is_placing(asked, group, places) && is_ranking(group, ranking) && out == placed(
            places,
            ranking,
        )
}

/// Builds the request for the engine: the query and every document copied,
/// a null one as the empty string; exactly one query; the fixed depth.
pub fn rerank_request(query: &Option<Vec<u8>>, documents: &Vec<Option<Vec<u8>>>) -> (request:
    RerankRequest)
    ensures
        request.queries@.len() == 1,
        request.queries@[0]@ == entry_text(query.deep_view()),
        request.documents.deep_view() == entry_texts(documents.deep_view()),
        request.documents@.len() == documents@.len(),
        query matches Some(bytes) ==> (valid_utf8(bytes@) ==> request.queries@[0]@ == decode_utf8(
            bytes@,
        )),
        forall|i: int|
            0 <= i < documents@.len() ==> (documents@[i] matches Some(bytes) ==> (valid_utf8(
                bytes@,
            ) ==> (#[trigger] request.documents@[i])@ == decode_utf8(bytes@))),
        request.depth == RETRIEVAL_DEPTH,
{
    let mut queries: Vec<String> = Vec::with_capacity(1);
    queries.push(decode_text(query));
    RerankRequest { queries, documents: decode_texts(documents), depth: RETRIEVAL_DEPTH }
}

/// Ranks one group of scored documents: records each document's position in
/// the group, then orders the records by descending score.
///
/// The second clause says of each record of the vector that its view is the
/// record at that place of the ranking, for callers that index the vector.
pub fn rank_documents(group: &Vec<ScoredDocument>) -> (out: Vec<RerankResult>)
    ensures
        is_ranking(group.deep_view(), out.deep_view()),
        forall|k: int| 0 <= k < out@.len() ==> (#[trigger] out@[k])@ == out.deep_view()[k],
{
    let ghost docs = group.deep_view();
    let mut out: Vec<RerankResult> = Vec::with_capacity(group.len());
    let mut i: usize = 0;
    while i < group.len()
        invariant
            docs == group.deep_view(),
            i <= group@.len(),
            out@.len() == i,
            refers_back(docs, out.deep_view()),
            forall|k: int| 0 <= k < out@.len() ==> (#[trigger] out.deep_view()[k]).index < i,
            forall|p: int| 0 <= p < i ==> #[trigger] has_record(out.deep_view(), p),
            descending(out.deep_view()),
            stable(out.deep_view()),
        decreases group@.len() - i,
    {
        let score: u32 = group[i].relevance_score;
        let key: i64 = score_rank(score);
        let mut at: usize = out.len();
        while at > 0 && score_rank(out[at - 1].score) < key
            invariant
                at <= out@.len(),
                key == score_key(score),
                forall|k: int|
                    at <= k < out@.len() ==> score_key((#[trigger] out.deep_view()[k]).score) < key,
            decreases at,
        {
            assert(out.deep_view()[at - 1].score == out@[at - 1].score);
            at -= 1;
        }
        let record = RerankResult { index: i, score, text: group[i].document.clone() };
        let ghost before = out.deep_view();
        let ghost held = out@;
        assert(at > 0 ==> before[at - 1].score == held[at - 1].score);
        assert(record@.score == docs[i as int].score && record@.text == docs[i as int].document);
        out.insert(at, record);
        proof {
            let after = out.deep_view();
            assert forall|k: int| 0 <= k < after.len() implies after[k] == (if k < at {
                before[k]
            } else if k == at {
                record@
            } else {
                before[k - 1]
            }) by {
                if k < at {
                    assert(out@[k] == held[k]);
                } else if k > at {
                    assert(out@[k] == held[k - 1]);
                }
            }
            assert forall|k: int| 0 <= k < after.len() implies {
                &&& 0 <= (#[trigger] after[k]).index < docs.len()
                &&& after[k].index < i + 1
                &&& after[k].score == docs[after[k].index].score
                &&& after[k].text == docs[after[k].index].document
            } by {
                if k < at {
                    assert(after[k] == before[k]);
                } else if k > at {
                    assert(after[k] == before[k - 1]);
                }
            }
            assert forall|p: int| 0 <= p < i + 1 implies #[trigger] has_record(after, p) by {
                if p < i {
                    assert(has_record(before, p));
                    let k0 = choose|k: int| 0 <= k < before.len() && (#[trigger] before[k]).index == p;
                    if k0 < at {
                        assert(after[k0] == before[k0]);
                    } else {
                        assert(after[k0 + 1] == before[k0]);
                    }
                } else {
                    assert(after[at as int].index == p);
                }
            }
            assert forall|a: int, b: int|
                #![trigger after[a], after[b]]
                0 <= a < b < after.len() implies {
                &&& score_key(after[a].score) >= score_key(after[b].score)
                &&& score_key(after[a].score) == score_key(after[b].score) ==> after[a].index
                    < after[b].index
            } by {
                let a0 = if a < at { a } else { a - 1 };
                let b0 = if b < at { b } else { b - 1 };
                if a != at {
                    assert(after[a] == before[a0]);
                }
                if b != at {
                    assert(after[b] == before[b0]);
                }
                if a == at {
                    assert(score_key(before[b0].score) < key);
                } else if b == at {
                    if at > 0 {
                        assert(score_key(before[at - 1].score) >= key);
                        if a0 < at - 1 {
                            assert(score_key(before[a0].score) >= score_key(
                                before[at - 1].score,
                            ));
                        }
                    }
                    assert(before[a0].index < i);
                } else {
                    assert(a0 < b0);
                }
            }
        }
        i += 1;
    }
    out
}

/// Gives every document of the group its place in the list that was asked,
/// or finds that the group does not answer that list.
pub fn place_documents(asked: &Vec<String>, group: &Vec<ScoredDocument>) -> (places: Option<
    Vec<usize>,
>)
    ensures
        places is Some <==> answers(asked.deep_view(), group.deep_view()),
        places matches Some(found) ==> is_placing(
            asked.deep_view(),
            group.deep_view(),
            as_places(found@),
        ),
{
    let ghost texts = asked.deep_view();
    let ghost docs = group.deep_view();
    let mut taken: Vec<bool> = Vec::with_capacity(asked.len());
    let mut t: usize = 0;
    while t < asked.len()
        invariant
            t <= asked@.len(),
            taken@.len() == t,
            forall|q: int| 0 <= q < t ==> !(#[trigger] taken@[q]),
        decreases asked@.len() - t,
    {
        taken.push(false);
        t += 1;
    }
    let mut places: Vec<usize> = Vec::with_capacity(group.len());
    let mut i: usize = 0;
    while i < group.len()
        invariant
            texts == asked.deep_view(),
            docs == group.deep_view(),
            i <= group@.len(),
            places@.len() == i,
            taken@.len() == asked@.len(),
            places_some(texts, docs, as_places(places@)),
            forall|q: int|
                0 <= q < taken@.len() ==> (#[trigger] taken@[q] <==> taken_before(
                    as_places(places@),
                    i as int,
                    q,
                )),
        decreases group@.len() - i,
    {
        let mut p: usize = 0;
        while p < asked.len() && (taken[p] || !(asked[p] == group[i].document))
            invariant
                texts == asked.deep_view(),
                docs == group.deep_view(),
                i < group@.len(),
                p <= asked@.len(),
                taken@.len() == asked@.len(),
                forall|q: int|
                    0 <= q < p ==> (#[trigger] taken@[q]) || texts[q] != docs[i as int].document,
            decreases asked@.len() - p,
        {
            p += 1;
        }
        let ghost before = as_places(places@);
        if p == asked.len() {
            proof {
                assert forall|q: int| 0 <= q < texts.len() && texts[q] == docs[i as int].document
                    implies taken_before(before, i as int, q) by {
                    assert(taken@[q]);
                }
                lemma_no_place(texts, docs, before);
            }
            return None;
        }
        assert(texts[p as int] == docs[i as int].document);
        assert(!taken_before(before, i as int, p as int));
        let ghost held = taken@;
        taken.set(p, true);
        places.push(p);
        proof {
            let after = as_places(places@);
            assert(after =~= before.push(p as int));
            assert forall|a: int, b: int| 0 <= a < b < after.len() implies after[a] != after[b] by {
                if b == i {
                    if before[a] == p as int {
                        assert(taken_before(before, i as int, p as int));
                    }
                }
            }
            assert forall|a: int, q: int|
                0 <= a < after.len() && 0 <= q < after[a] && texts[q]
                    == docs[a].document implies #[trigger] taken_before(after, a, q) by {
                if a < i {
                    assert(taken_before(before, a, q));
                    let j = choose|j: int| 0 <= j < a && #[trigger] before[j] == q;
                    assert(after[j] == q);
                } else {
                    assert(held[q]);
                    assert(taken_before(before, i as int, q));
                    let j = choose|j: int| 0 <= j < i && #[trigger] before[j] == q;
                    assert(after[j] == q);
                }
            }
            assert forall|q: int| 0 <= q < taken@.len() implies (#[trigger] taken@[q]
                <==> taken_before(after, i + 1, q)) by {
                if q == p {
                    assert(after[i as int] == q);
                } else {
                    assert(taken@[q] == held[q]);
                    if held[q] {
                        assert(taken_before(before, i as int, q));
                        let j = choose|j: int| 0 <= j < i && #[trigger] before[j] == q;
                        assert(after[j] == q);
                    }
                    if taken_before(after, i + 1, q) {
                        let j = choose|j: int| 0 <= j < i + 1 && #[trigger] after[j] == q;
                        assert(j < i);
                        assert(before[j] == q);
                        assert(taken_before(before, i as int, q));
                    }
                }
            }
        }
        i += 1;
    }
    assert(is_placing(texts, docs, as_places(places@)));
    Some(places)
}

/// Turns the engine's answer into the batch that is handed back, given the
/// documents that were asked.
///
/// A failed call (`None`) yields no batch. Otherwise the first group of the
/// answer is used. Every document of the group is given its place in the
/// list that was asked: a place that holds its text, and among the places
/// that hold one text the first that no earlier document of the group has.
/// A group with a document that finds no place does not answer what was
/// asked, and yields no batch. Otherwise the records are the group's
/// documents, each with its place as index, ordered by descending score,
/// equal scores in the order of the group; an answer without documents
/// yields the empty batch, which holds no array.
///
/// The last clause says of each record of the array that its view is the
/// record at that place of the batch, for callers that index the array.
pub fn rerank_documents(asked: &Vec<String>, outcome: Option<Vec<Vec<ScoredDocument>>>) -> (batch:
    Option<BatchRerankResult>)
    ensures
        outcome is None ==> batch is None,
        outcome matches Some(groups) ==> (batch is Some <==> answers(
            asked.deep_view(),
            first_group(groups.deep_view()),
        )),
        outcome matches Some(groups) ==> (batch matches Some(b) ==> b.wf() && is_answer(
            asked.deep_view(),
            first_group(groups.deep_view()),
            b@,
        )),
        outcome matches Some(groups) ==> (batch matches Some(b) ==> b@.len() == first_group(
            groups.deep_view(),
        ).len() && descending(b@)),
        batch matches Some(b) ==> forall|k: int|
            0 <= k < b@.len() ==> 0 <= (#[trigger] b@[k]).index < asked@.len() && asked@[b@[k].index]@
                == b@[k].text,
        batch matches Some(b) ==> forall|a: int, c: int|
            #![trigger b@[a], b@[c]]
            0 <= a < c < b@.len() ==> b@[a].index != b@[c].index,
        outcome matches Some(groups) ==> (batch matches Some(b) ==> forall|k: int|
            0 <= k < b@.len() ==> is_of_group(first_group(groups.deep_view()), #[trigger] b@[k])),
        batch matches Some(b) ==> (b.results matches Some(records) ==> forall|k: int|
            0 <= k < records@.len() ==> (#[trigger] records@[k])@ == b@[k]),
{
    let ghost texts = asked.deep_view();
    match outcome {
        None => None,
        Some(groups) => {
            let ghost docs = first_group(groups.deep_view());
            if groups.len() == 0 {
                proof {
                    let none = Seq::<int>::empty();
                    let ranking = Seq::<RankedText>::empty();
                    assert(is_placing(texts, docs, none));
                    assert(is_ranking(docs, ranking));
                    assert(placed(none, ranking) =~= ranking);
                }
                return Some(BatchRerankResult { results: None, count: 0 });
            }
            let group = &groups[0];
            assert(docs == group.deep_view());
            let places = match place_documents(asked, group) {
                Some(places) => places,
                None => {
                    return None;
                },
            };
            let ranked = rank_documents(group);
            let ghost given = as_places(places@);
            let ghost ranking = ranked.deep_view();
            let ghost wanted = placed(given, ranking);
            proof {
                lemma_answer_points_back(texts, docs, given, ranking);
            }
            let count: usize = ranked.len();
            if count == 0 {
                assert(wanted =~= Seq::<RankedText>::empty());
                return Some(BatchRerankResult { results: None, count: 0 });
            }
            let mut results: Vec<RerankResult> = Vec::with_capacity(count);
            for record in it: ranked
                invariant
                    it.seq().len() == ranking.len(),
                    forall|k: int|
                        0 <= k < ranking.len() ==> (#[trigger] it.seq()[k])@ == ranking[k],
                    refers_back(docs, ranking),
                    places@.len() == docs.len(),
                    given == as_places(places@),
                    wanted == placed(given, ranking),
                    results@.len() == it.index(),
                    forall|k: int|
                        0 <= k < results@.len() ==> (#[trigger] results@[k])@ == wanted[k],
            {
                proof {
                    let k = it.index() as int;
                    assert(it.seq()[k]@ == ranking[k]);
                    assert(0 <= ranking[k].index < docs.len());
                }
                let index: usize = places[record.index];
                results.push(RerankResult { index, score: record.score, text: record.text });
            }
            assert(results.deep_view() =~= wanted);
            assert(is_answer(texts, docs, wanted));
            Some(BatchRerankResult { results: Some(results), count })
        },
    }
}

/// Whether the document at position `p` of the group ranks before the one at
/// position `q`: its score is larger, or the scores are equal and it stands
/// earlier in the group.
pub open spec fn ranks_before(group: Seq<ScoredText>, p: int, q: int) -> bool {
    let kp = score_key(group[p].score);
    let kq = score_key(group[q].score);
    kp > kq || (kp == kq && p < q)
}

/// A ranking has as many records as the group has documents; every index is
/// a position of the group, no two records share one, and the scores never
/// increase along the ranking.
pub proof fn lemma_ranking_is_permutation(group: Seq<ScoredText>, out: Seq<RankedText>)
    requires
        is_ranking(group, out),
    ensures
        out.len() == group.len(),
        forall|k: int| 0 <= k < out.len() ==> 0 <= (#[trigger] out[k]).index < group.len(),
        forall|a: int, b: int|
            #![trigger out[a], out[b]]
            0 <= a < b < out.len() ==> out[a].index != out[b].index,
        forall|a: int, b: int|
            #![trigger out[a], out[b]]
            0 <= a < b < out.len() ==> score_key(out[a].score) >= score_key(out[b].score),
        forall|p: int| 0 <= p < group.len() ==> #[trigger] has_record(out, p),
{
    assert forall|a: int, b: int|
        #![trigger out[a], out[b]]
        0 <= a < b < out.len() implies out[a].index != out[b].index by {
        lemma_ranking_in_order(group, out, a, b);
    }
}

/// In a ranking, an earlier record's document ranks before a later one's.
pub proof fn lemma_ranking_in_order(
    group: Seq<ScoredText>,
    out: Seq<RankedText>,
    a: int,
    b: int,
)
    requires
        is_ranking(group, out),
        0 <= a < b < out.len(),
    ensures
        ranks_before(group, out[a].index, out[b].index),
{
    assert(out[a].score == group[out[a].index].score);
    assert(out[b].score == group[out[b].index].score);
    assert(score_key(out[a].score) >= score_key(out[b].score));
}

/// Two rankings of one group agree on the documents of their first `k`
/// records.
proof fn lemma_same_prefix(
    group: Seq<ScoredText>,
    left: Seq<RankedText>,
    right: Seq<RankedText>,
    k: int,
)
    requires
        is_ranking(group, left),
        is_ranking(group, right),
        0 <= k <= group.len(),
    ensures
        forall|j: int| 0 <= j < k ==> (#[trigger] left[j]).index == right[j].index,
    decreases k,
{
    if k > 0 {
        lemma_same_prefix(group, left, right, k - 1);
        let j = k - 1;
        let p = left[j].index;
        let q = right[j].index;
        if p != q {
            assert(has_record(right, p));
            let m = choose|m: int| 0 <= m < right.len() && (#[trigger] right[m]).index == p;
            assert(has_record(left, q));
            let n = choose|n: int| 0 <= n < left.len() && (#[trigger] left[n]).index == q;
            if m < j {
                assert(left[m].index == right[m].index);
                lemma_ranking_in_order(group, left, m, j);
            } else {
                lemma_ranking_in_order(group, right, j, m);
            }
            if n < j {
                assert(left[n].index == right[n].index);
                lemma_ranking_in_order(group, right, n, j);
            } else {
                lemma_ranking_in_order(group, left, j, n);
            }
        }
    }
}

/// A group has exactly one ranking: two sequences of records that both rank
/// it are equal.
pub proof fn lemma_ranking_unique(
    group: Seq<ScoredText>,
    left: Seq<RankedText>,
    right: Seq<RankedText>,
)
    requires
        is_ranking(group, left),
        is_ranking(group, right),
    ensures
        left == right,
{
    lemma_same_prefix(group, left, right, group.len() as int);
    assert forall|j: int| 0 <= j < left.len() implies left[j] == right[j] by {
        assert(left[j].index == right[j].index);
    }
    assert(left =~= right);
}

/// Two ways of giving the first documents of a group their places agree on
/// the documents that both place.
pub proof fn lemma_places_agree(
    asked: Seq<Seq<char>>,
    group: Seq<ScoredText>,
    left: Seq<int>,
    right: Seq<int>,
    n: int,
)
    requires
        places_some(asked, group, left),
        places_some(asked, group, right),
        0 <= n <= left.len(),
        n <= right.len(),
    ensures
        forall|j: int| 0 <= j < n ==> #[trigger] left[j] == right[j],
    decreases n,
{
    if n > 0 {
        lemma_places_agree(asked, group, left, right, n - 1);
        let j = n - 1;
        let p = left[j];
        let q = right[j];
        if p < q {
            assert(taken_before(right, j, p));
            let e = choose|e: int| 0 <= e < j && #[trigger] right[e] == p;
            assert(left[e] == right[e]);
        } else if q < p {
            assert(taken_before(left, j, q));
            let e = choose|e: int| 0 <= e < j && #[trigger] left[e] == q;
            assert(left[e] == right[e]);
        }
    }
}

/// Where the first documents of a group have their places and the next one
/// finds every place with its text taken, the group does not answer the list
/// that was asked.
proof fn lemma_no_place(asked: Seq<Seq<char>>, group: Seq<ScoredText>, places: Seq<int>)
    requires
        places_some(asked, group, places),
        places.len() < group.len(),
        forall|q: int|
            0 <= q < asked.len() && asked[q] == group[places.len() as int].document
                ==> taken_before(places, places.len() as int, q),
    ensures
        !answers(asked, group),
{
    if answers(asked, group) {
        let full = choose|full: Seq<int>| is_placing(asked, group, full);
        let n = places.len() as int;
        lemma_places_agree(asked, group, places, full, n);
        let q = full[n];
        assert(taken_before(places, n, q));
        let e = choose|e: int| 0 <= e < n && #[trigger] places[e] == q;
        assert(places[e] == full[e]);
    }
}

/// What holds of an answer: it has one record per document of the group;
/// every index is a place of the list that was asked, and that place holds
/// the record's text; no two records share an index; the scores never
/// increase along it; every record carries the text and the score of a
/// document of the group.
pub proof fn lemma_answer_points_back(
    asked: Seq<Seq<char>>,
    group: Seq<ScoredText>,
    places: Seq<int>,
    ranking: Seq<RankedText>,
)
    requires
        is_placing(asked, group, places),
        is_ranking(group, ranking),
    ensures
        is_answer(asked, group, placed(places, ranking)),
        placed(places, ranking).len() == group.len(),
        forall|k: int|
            0 <= k < group.len() ==> 0 <= (#[trigger] placed(places, ranking)[k]).index
                < asked.len() && asked[placed(places, ranking)[k].index] == placed(
                places,
                ranking,
            )[k].text,
        forall|a: int, c: int|
            #![trigger placed(places, ranking)[a], placed(places, ranking)[c]]
            0 <= a < c < group.len() ==> placed(places, ranking)[a].index != placed(
                places,
                ranking,
            )[c].index,
        descending(placed(places, ranking)),
        forall|k: int|
            0 <= k < group.len() ==> is_of_group(group, #[trigger] placed(places, ranking)[k]),
{
    let out = placed(places, ranking);
    lemma_ranking_is_permutation(group, ranking);
    assert forall|k: int| 0 <= k < group.len() implies is_of_group(group, #[trigger] out[k]) by {
        let g = ranking[k].index;
        assert(out[k].text == group[g].document && out[k].score == group[g].score);
    }
    assert forall|k: int| 0 <= k < group.len() implies 0 <= (#[trigger] out[k]).index
        < asked.len() && asked[out[k].index] == out[k].text by {
        let g = ranking[k].index;
        assert(0 <= g < group.len());
        assert(asked[places[g]] == group[g].document);
    }
    assert forall|a: int, c: int|
        #![trigger out[a], out[c]]
        0 <= a < c < group.len() implies out[a].index != out[c].index by {
        let ga = ranking[a].index;
        let gc = ranking[c].index;
        assert(ga != gc);
        if ga < gc {
            assert(places[ga] != places[gc]);
        } else {
            assert(places[gc] != places[ga]);
        }
    }
    assert forall|a: int, c: int|
        #![trigger out[a], out[c]]
        0 <= a < c < out.len() implies score_key(out[a].score) >= score_key(out[c].score) by {
        assert(score_key(ranking[a].score) >= score_key(ranking[c].score));
    }
}

/// A group has at most one answer to a list that was asked: two sequences of
/// records that both answer it are equal.
pub proof fn lemma_answer_unique(
    asked: Seq<Seq<char>>,
    group: Seq<ScoredText>,
    left: Seq<RankedText>,
    right: Seq<RankedText>,
)
    requires
        is_answer(asked, group, left),
        is_answer(asked, group, right),
    ensures
        left == right,
{
    let (pl, rl) = choose|pl: Seq<int>, rl: Seq<RankedText>|
        is_placing(asked, group, pl) && is_ranking(group, rl) && left == placed(pl, rl);
    let (pr, rr) = choose|pr: Seq<int>, rr: Seq<RankedText>|
        is_placing(asked, group, pr) && is_ranking(group, rr) && right == placed(pr, rr);
    lemma_ranking_unique(group, rl, rr);
    lemma_places_agree(asked, group, pl, pr, group.len() as int);
    assert(pl =~= pr);
}

/// At or before a free place there is a first free place.
proof fn lemma_first_free(
    asked: Seq<Seq<char>>,
    group: Seq<ScoredText>,
    places: Seq<int>,
    hi: int,
) -> (first: int)
    requires
        is_free(asked, group, places, hi),
    ensures
        is_free(asked, group, places, first),
        first <= hi,
        forall|q: int| 0 <= q < first ==> !#[trigger] is_free(asked, group, places, q),
    decreases hi,
{
    if exists|q: int| 0 <= q < hi && #[trigger] is_free(asked, group, places, q) {
        let q = choose|q: int| 0 <= q < hi && #[trigger] is_free(asked, group, places, q);
        lemma_first_free(asked, group, places, q)
    } else {
        hi
    }
}

/// From any way of giving every document a place of its own, the places of
/// the first `n` documents, together with a way of giving every document a
/// place of its own that agrees with them.
proof fn lemma_places_from_matching(
    asked: Seq<Seq<char>>,
    group: Seq<ScoredText>,
    matching: Seq<int>,
    n: nat,
) -> (found: (Seq<int>, Seq<int>))
    requires
        is_matching(asked, group, matching),
        n <= group.len(),
    ensures
        places_some(asked, group, found.0),
        found.0.len() == n,
        is_matching(asked, group, found.1),
        forall|j: int| 0 <= j < n ==> #[trigger] found.0[j] == found.1[j],
    decreases n,
{
    if n == 0 {
        (Seq::<int>::empty(), matching)
    } else {
        let (places, old) = lemma_places_from_matching(asked, group, matching, (n - 1) as nat);
        let i = n - 1;
        assert(is_free(asked, group, places, old[i])) by {
            if taken_before(places, i, old[i]) {
                let e = choose|e: int| 0 <= e < i && #[trigger] places[e] == old[i];
                assert(old[e] == places[e]);
            }
        }
        let first = lemma_first_free(asked, group, places, old[i]);
        let after = places.push(first);
        assert forall|a: int, b: int| 0 <= a < b < after.len() implies after[a] != after[b] by {
            if b == i && places[a] == first {
                assert(taken_before(places, i, first));
            }
        }
        assert forall|a: int, q: int|
            0 <= a < after.len() && 0 <= q < after[a] && asked[q]
                == group[a].document implies #[trigger] taken_before(after, a, q) by {
            if a < i {
                assert(taken_before(places, a, q));
                let e = choose|e: int| 0 <= e < a && #[trigger] places[e] == q;
                assert(after[e] == q);
            } else {
                assert(!is_free(asked, group, places, q));
                assert(taken_before(places, i, q));
                let e = choose|e: int| 0 <= e < i && #[trigger] places[e] == q;
                assert(after[e] == q);
            }
        }
        assert forall|e: int| 0 <= e < i implies #[trigger] old[e] != first by {
            if old[e] == first {
                assert(places[e] == old[e]);
                assert(taken_before(places, i, first));
            }
        }
        let swapped = if exists|j: int| i < j < old.len() && #[trigger] old[j] == first {
            let j = choose|j: int| i < j < old.len() && #[trigger] old[j] == first;
            old.update(i, first).update(j, old[i])
        } else {
            old.update(i, first)
        };
        assert(is_matching(asked, group, swapped)) by {
            if exists|j: int| i < j < old.len() && #[trigger] old[j] == first {
                let j = choose|j: int| i < j < old.len() && #[trigger] old[j] == first;
                assert(asked[old[i]] == group[i].document);
                assert(asked[old[j]] == group[j].document);
                assert forall|a: int, b: int| 0 <= a < b < swapped.len() implies swapped[a]
                    != swapped[b] by {
                    assert(old[a] != old[b]);
                    if a != i && a != j {
                        assert(swapped[a] == old[a]);
                        if a < i {
                            assert(old[a] != old[i]);
                        } else {
                            assert(old[i] != old[a]);
                        }
                        if a < j {
                            assert(old[a] != old[j]);
                        } else {
                            assert(old[j] != old[a]);
                        }
                    }
                    if b != i && b != j {
                        assert(swapped[b] == old[b]);
                        if b < i {
                            assert(old[b] != old[i]);
                        } else {
                            assert(old[i] != old[b]);
                        }
                        if b < j {
                            assert(old[b] != old[j]);
                        } else {
                            assert(old[j] != old[b]);
                        }
                    }
                    assert(old[i] != old[j]);
                }
            } else {
                assert forall|a: int, b: int| 0 <= a < b < swapped.len() implies swapped[a]
                    != swapped[b] by {
                    assert(old[a] != old[b]);
                }
            }
        }
        (after, swapped)
    }
}

/// A group answers the list that was asked exactly when every document of
/// the group can be given a place of its own in that list, one that holds
/// its text.
pub proof fn lemma_answers_is_matching(asked: Seq<Seq<char>>, group: Seq<ScoredText>)
    ensures
        answers(asked, group) <==> exists|places: Seq<int>| is_matching(asked, group, places),
{
    if answers(asked, group) {
        let places = choose|places: Seq<int>| is_placing(asked, group, places);
        assert(is_matching(asked, group, places));
    }
    if exists|places: Seq<int>| is_matching(asked, group, places) {
        let matching = choose|places: Seq<int>| is_matching(asked, group, places);
        let found = lemma_places_from_matching(asked, group, matching, group.len());
        assert(is_placing(asked, group, found.0));
    }
}

} // verus!
