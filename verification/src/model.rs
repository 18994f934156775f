//! The mathematical model of a collection: what it holds, which of its
//! embeddings a filter lets pass, and what answers a similarity query.

use vstd::prelude::*;
use crate::filter::matches_filter;
use crate::similarity::{Distance, ScoreIndex};
use crate::topk::is_top_k;

verus! {

/// What an embedding holds.
pub struct EmbeddingView {
    pub id: Seq<char>,
    pub vector: Seq<u32>,
    pub metadata: Option<Map<Seq<char>, Seq<char>>>,
}

/// What a collection holds.
pub struct CollectionView {
    pub dimension: usize,
    pub distance: Distance,
    pub embeddings: Seq<EmbeddingView>,
}

/// Whether some embedding of the list has the id.
pub open spec fn has_id(es: Seq<EmbeddingView>, id: Seq<char>) -> bool {
    exists|i: int| 0 <= i < es.len() && (#[trigger] es[i]).id == id
}

/// The place of the first embedding with the id, or the length of the list
/// where there is none.
pub open spec fn id_position(es: Seq<EmbeddingView>, id: Seq<char>) -> int
    decreases es.len(),
{
    if es.len() == 0 {
        0
    } else if es[0].id == id {
        0
    } else {
        1 + id_position(es.drop_first(), id)
    }
}

/// No id occurs twice in the list.
pub open spec fn distinct_ids(es: Seq<EmbeddingView>) -> bool {
    forall|i: int, j: int| 0 <= i < j < es.len() ==> es[i].id != es[j].id
}

/// The ids of a list of embeddings, in its order.
pub open spec fn ids_of(es: Seq<EmbeddingView>) -> Seq<Seq<char>> {
    es.map_values(|e: EmbeddingView| e.id)
}

/// The embeddings that pass the filter, in the order of the list.
pub open spec fn matching(es: Seq<EmbeddingView>, filter: Seq<Map<Seq<char>, Seq<char>>>) -> Seq<
    EmbeddingView,
> {
    es.filter(|e: EmbeddingView| matches_filter(e.metadata, filter))
}

/// The embeddings that do not pass the filter, in the order of the list.
pub open spec fn remaining(es: Seq<EmbeddingView>, filter: Seq<Map<Seq<char>, Seq<char>>>) -> Seq<
    EmbeddingView,
> {
    es.filter(|e: EmbeddingView| !matches_filter(e.metadata, filter))
}

/// The candidates of a query: for each embedding that passes the filter,
/// its place in the list and the score at that place, in the order of the
/// list. `scores` holds the score of each embedding at its place.
pub open spec fn candidates(
    es: Seq<EmbeddingView>,
    filter: Seq<Map<Seq<char>, Seq<char>>>,
    scores: Seq<u32>,
) -> Seq<ScoreIndex>
    recommends
        es.len() <= scores.len(),
    decreases es.len(),
{
    if es.len() == 0 {
        Seq::empty()
    } else {
        let before = candidates(es.drop_last(), filter, scores);
        let place = es.len() - 1;
        if matches_filter(es.last().metadata, filter) {
            before.push(ScoreIndex { score: scores[place], index: place as usize })
        } else {
            before
        }
    }
}

/// The vector that a collection of the metric keeps of an embedding: the
/// vector scaled to unit length where the metric stores unit vectors, and
/// the vector as it is otherwise.
pub open spec fn stored_vector(distance: Distance, vector: Seq<u32>, unit: Seq<u32>) -> Seq<u32> {
    if distance.stores_unit_vectors() {
        unit
    } else {
        vector
    }
}

/// The vector has the dimension of the collection, and so has its unit
/// form where the collection keeps that.
pub open spec fn vectors_fit(c: CollectionView, vector: Seq<u32>, unit: Seq<u32>) -> bool {
    &&& vector.len() == c.dimension
    &&& c.distance.stores_unit_vectors() ==> unit.len() == c.dimension
}

impl CollectionView {
    /// The dimension is positive, every vector has it, and no id occurs
    /// twice.
    pub open spec fn wf(self) -> bool {
        &&& self.dimension > 0
        &&& distinct_ids(self.embeddings)
        &&& forall|i: int|
            0 <= i < self.embeddings.len() ==> (#[trigger] self.embeddings[i]).vector.len()
                == self.dimension
    }
}

/// The first place at which an id stands is its position.
pub proof fn lemma_id_position(es: Seq<EmbeddingView>, id: Seq<char>, i: int)
    requires
        0 <= i < es.len(),
        es[i].id == id,
        forall|j: int| 0 <= j < i ==> (#[trigger] es[j]).id != id,
    ensures
        id_position(es, id) == i,
        has_id(es, id),
    decreases es.len(),
{
    if i > 0 {
        assert(es[0].id != id);
        let rest = es.drop_first();
        assert forall|j: int| 0 <= j < i - 1 implies (#[trigger] rest[j]).id != id by {
            assert(es[j + 1].id != id);
        }
        lemma_id_position(rest, id, i - 1);
    }
}

/// Looking at one more embedding adds it to the matching ones exactly if
/// it passes the filter.
pub proof fn lemma_matching_step(
    es: Seq<EmbeddingView>,
    filter: Seq<Map<Seq<char>, Seq<char>>>,
    i: int,
)
    requires
        0 <= i < es.len(),
    ensures
        matching(es.take(i + 1), filter) == if matches_filter(es[i].metadata, filter) {
            matching(es.take(i), filter).push(es[i])
        } else {
            matching(es.take(i), filter)
        },
        remaining(es.take(i + 1), filter) == if matches_filter(es[i].metadata, filter) {
            remaining(es.take(i), filter)
        } else {
            remaining(es.take(i), filter).push(es[i])
        },
{
    reveal(Seq::filter);
    assert(es.take(i + 1).drop_last() =~= es.take(i));
    assert(es.take(i + 1).last() == es[i]);
}

/// The matching embeddings of a prefix are a prefix of the matching ones.
pub proof fn lemma_matching_prefix(
    es: Seq<EmbeddingView>,
    filter: Seq<Map<Seq<char>, Seq<char>>>,
    i: int,
)
    requires
        0 <= i <= es.len(),
    ensures
        matching(es.take(i), filter).len() <= matching(es, filter).len(),
        matching(es, filter).take(matching(es.take(i), filter).len() as int) == matching(
            es.take(i),
            filter,
        ),
{
    let pred = |e: EmbeddingView| matches_filter(e.metadata, filter);
    Seq::filter_distributes_over_add(es.take(i), es.skip(i), pred);
    assert(es.take(i) + es.skip(i) =~= es);
    assert((es.take(i).filter(pred) + es.skip(i).filter(pred)).take(
        es.take(i).filter(pred).len() as int,
    ) =~= es.take(i).filter(pred));
}

/// Looking at one more embedding adds a candidate exactly if the embedding
/// passes the filter.
pub proof fn lemma_candidates_step(
    es: Seq<EmbeddingView>,
    filter: Seq<Map<Seq<char>, Seq<char>>>,
    scores: Seq<u32>,
    i: int,
)
    requires
        0 <= i < es.len(),
    ensures
        candidates(es.take(i + 1), filter, scores) == if matches_filter(es[i].metadata, filter) {
            candidates(es.take(i), filter, scores).push(
                ScoreIndex { score: scores[i], index: i as usize },
            )
        } else {
            candidates(es.take(i), filter, scores)
        },
{
    assert(es.take(i + 1).drop_last() =~= es.take(i));
    assert(es.take(i + 1).last() == es[i]);
}

/// There is one candidate for each embedding that passes the filter. Each
/// stands for an embedding of the list that passes the filter, with the
/// score at its place; the candidates come in the order of the list, so
/// none stands for the same embedding as another.
pub proof fn lemma_candidates(
    es: Seq<EmbeddingView>,
    filter: Seq<Map<Seq<char>, Seq<char>>>,
    scores: Seq<u32>,
)
    requires
        es.len() <= usize::MAX,
        es.len() <= scores.len(),
    ensures
        candidates(es, filter, scores).len() == matching(es, filter).len(),
        forall|j: int|
            0 <= j < candidates(es, filter, scores).len() ==> {
                let c = #[trigger] candidates(es, filter, scores)[j];
                &&& c.index < es.len()
                &&& c.index < scores.len()
                &&& c.score == scores[c.index as int]
                &&& matches_filter(es[c.index as int].metadata, filter)
            },
        forall|a: int, b: int|
            0 <= a < b < candidates(es, filter, scores).len() ==> candidates(
                es,
                filter,
                scores,
            )[a].index < candidates(es, filter, scores)[b].index,
    decreases es.len(),
{
    reveal(Seq::filter);
    if es.len() > 0 {
        lemma_candidates(es.drop_last(), filter, scores);
        let before = candidates(es.drop_last(), filter, scores);
        let all = candidates(es, filter, scores);
        assert forall|j: int| 0 <= j < all.len() implies {
            let c = #[trigger] all[j];
            &&& c.index < es.len()
            &&& c.index < scores.len()
            &&& c.score == scores[c.index as int]
            &&& matches_filter(es[c.index as int].metadata, filter)
        } by {
            if j < before.len() {
                let c = before[j];
                assert(es.drop_last()[c.index as int] == es[c.index as int]);
            }
        }
    }
}

/// What a result of a similarity query holds.
pub struct SimilarityView {
    pub score: u32,
    pub embedding: EmbeddingView,
}

/// The results that a list of chosen candidates stands for.
pub open spec fn ranked(es: Seq<EmbeddingView>, picked: Seq<ScoreIndex>) -> Seq<SimilarityView> {
    Seq::new(
        picked.len(),
        |j: int| SimilarityView { score: picked[j].score, embedding: es[picked[j].index as int] },
    )
}

/// `out` answers a similarity query on a collection: it stands for the `k`
/// best candidates of the query under the metric of the collection, best
/// first.
pub open spec fn is_ranking(
    c: CollectionView,
    filter: Seq<Map<Seq<char>, Seq<char>>>,
    scores: Seq<u32>,
    k: nat,
    out: Seq<SimilarityView>,
) -> bool {
    exists|picked: Seq<ScoreIndex>|
        #![trigger ranked(c.embeddings, picked)]
        is_top_k(candidates(c.embeddings, filter, scores), k, c.distance, picked) && out == ranked(
            c.embeddings,
            picked,
        )
}

/// The chosen candidates are among the given ones, so a bound on the places
/// of those holds of them too.
pub proof fn lemma_picked_in_range(
    found: Seq<ScoreIndex>,
    k: nat,
    metric: Distance,
    picked: Seq<ScoreIndex>,
    bound: int,
)
    requires
        is_top_k(found, k, metric, picked),
        forall|j: int| 0 <= j < found.len() ==> (#[trigger] found[j]).index < bound,
    ensures
        forall|t: int| 0 <= t < picked.len() ==> (#[trigger] picked[t]).index < bound,
{
    broadcast use vstd::seq_lib::group_to_multiset_ensures;
    assert forall|t: int| 0 <= t < picked.len() implies (#[trigger] picked[t]).index < bound by {
        assert(picked.contains(picked[t]));
        assert(picked.to_multiset().count(picked[t]) > 0);
        assert(found.to_multiset().count(picked[t]) > 0);
        assert(found.contains(picked[t]));
        let j = choose|j: int| 0 <= j < found.len() && found[j] == picked[t];
        assert(found[j].index < bound);
    }
}

} // verus!
