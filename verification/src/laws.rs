//! What holds of the operations of a collection taken together.

use vstd::prelude::*;
use vstd::multiset::*;
use vstd::seq_lib::*;
use crate::model::{
    candidates, has_id, id_position, is_ranking, lemma_candidates, lemma_id_position, matching,
    ranked, remaining, CollectionView, EmbeddingView, SimilarityView,
};
use crate::db::Db;
use crate::filter::matches_filter;
use crate::snapshot::{entries_of, valid_snapshot};
use crate::similarity::{rank_key, ScoreIndex};
use crate::topk::is_top_k;

verus! {

/// An embedding that was added under a new id is the one that is found
/// under that id afterwards: with the id, the vector and the metadata that
/// were handed in.
pub proof fn lemma_insert_then_get(es: Seq<EmbeddingView>, e: EmbeddingView)
    requires
        !has_id(es, e.id),
    ensures
        has_id(es.push(e), e.id),
        es.push(e)[id_position(es.push(e), e.id)] == e,
{
    let after = es.push(e);
    assert forall|j: int| 0 <= j < es.len() implies (#[trigger] after[j]).id != e.id by {
        assert(es[j].id != e.id);
    }
    lemma_id_position(after, e.id, es.len() as int);
}

/// The embeddings that were there before stay where they were, and are
/// found under their ids as before, when another one is added.
pub proof fn lemma_insert_keeps_others(es: Seq<EmbeddingView>, e: EmbeddingView, id: Seq<char>)
    requires
        has_id(es, id),
    ensures
        has_id(es.push(e), id),
        0 <= id_position(es, id) < es.len(),
        id_position(es.push(e), id) == id_position(es, id),
        es.push(e)[id_position(es.push(e), id)] == es[id_position(es, id)],
    decreases es.len(),
{
    let i = choose|i: int| 0 <= i < es.len() && (#[trigger] es[i]).id == id;
    assert(es.push(e)[i].id == id);
    assert(es.push(e)[0] == es[0]);
    if es[0].id != id {
        let rest = es.drop_first();
        assert(rest[i - 1].id == id);
        lemma_insert_keeps_others(rest, e, id);
        assert(es.push(e).drop_first() =~= rest.push(e));
        let p = id_position(rest, id);
        assert(rest[p] == es[p + 1]);
        assert(rest.push(e)[p] == es.push(e)[p + 1]);
    }
}

/// A filter without groups lets every embedding pass.
pub proof fn lemma_empty_filter_matches_all(es: Seq<EmbeddingView>)
    ensures
        matching(es, Seq::empty()) == es,
        remaining(es, Seq::empty()) == Seq::<EmbeddingView>::empty(),
    decreases es.len(),
{
    reveal(Seq::filter);
    if es.len() > 0 {
        lemma_empty_filter_matches_all(es.drop_last());
        assert(es.drop_last().push(es.last()) =~= es);
    }
}

/// A filter of one group lets no embedding pass where the group asks for a
/// key that no metadata of the list has.
pub proof fn lemma_absent_key_matches_none(
    es: Seq<EmbeddingView>,
    filter: Seq<Map<Seq<char>, Seq<char>>>,
    key: Seq<char>,
)
    requires
        filter.len() == 1,
        filter[0].contains_key(key),
        forall|i: int|
            0 <= i < es.len() ==> (#[trigger] es[i]).metadata is None || !es[i].metadata->0.contains_key(
                key,
            ),
    ensures
        matching(es, filter) == Seq::<EmbeddingView>::empty(),
        remaining(es, filter) == es,
    decreases es.len(),
{
    reveal(Seq::filter);
    if es.len() > 0 {
        let front = es.drop_last();
        assert forall|i: int| 0 <= i < front.len() implies (#[trigger] front[i]).metadata is None
            || !front[i].metadata->0.contains_key(key) by {
            assert(front[i] == es[i]);
        }
        lemma_absent_key_matches_none(front, filter, key);
        let e = es[es.len() - 1];
        assert(e.metadata is None || !e.metadata->0.contains_key(key));
        assert(!matches_filter(e.metadata, filter)) by {
            if e.metadata is Some {
                assert forall|g: int| 0 <= g < filter.len() implies !(#[trigger] filter[g]).submap_of(
                    e.metadata->0,
                ) by {
                    assert(filter[g].dom().contains(key));
                }
            }
        }
        assert(front.push(es.last()) =~= es);
    }
}

/// Deleting by a filter takes away the embeddings that a query by the same
/// filter returns, and no others: each embedding of the list is either
/// among the matching ones or among those that stay, their numbers add up,
/// and those that stay are the ones that do not pass the filter.
pub proof fn lemma_delete_takes_what_query_returns(
    es: Seq<EmbeddingView>,
    filter: Seq<Map<Seq<char>, Seq<char>>>,
)
    ensures
        matching(es, filter).len() + remaining(es, filter).len() == es.len(),
        es.to_multiset() == matching(es, filter).to_multiset().add(
            remaining(es, filter).to_multiset(),
        ),
        forall|e: EmbeddingView|
            matching(es, filter).contains(e) <==> es.contains(e) && matches_filter(e.metadata, filter),
        forall|e: EmbeddingView|
            remaining(es, filter).contains(e) <==> es.contains(e) && !matches_filter(
                e.metadata,
                filter,
            ),
    decreases es.len(),
{
    reveal(Seq::filter);
    broadcast use group_multiset_axioms, group_to_multiset_ensures;
    let yes = matching(es, filter);
    let no = remaining(es, filter);
    if es.len() == 0 {
        assert(es.to_multiset() =~= yes.to_multiset().add(no.to_multiset()));
    } else {
        let front = es.drop_last();
        let last = es.last();
        lemma_delete_takes_what_query_returns(front, filter);
        let yes0 = matching(front, filter);
        let no0 = remaining(front, filter);
        assert(front.push(last) =~= es);
        to_multiset_build(front, last);
        to_multiset_build(yes0, last);
        to_multiset_build(no0, last);
        assert(es.to_multiset() =~= yes.to_multiset().add(no.to_multiset()));
        assert forall|e: EmbeddingView|
            yes.contains(e) <==> es.contains(e) && matches_filter(e.metadata, filter) by {
            lemma_contains_push(front, last, e);
            lemma_contains_push(yes0, last, e);
        }
        assert forall|e: EmbeddingView|
            no.contains(e) <==> es.contains(e) && !matches_filter(e.metadata, filter) by {
            lemma_contains_push(front, last, e);
            lemma_contains_push(no0, last, e);
        }
    }
}

/// What a list holds after one more element: the element, and what it held.
proof fn lemma_contains_push(s: Seq<EmbeddingView>, last: EmbeddingView, e: EmbeddingView)
    ensures
        s.push(last).contains(e) <==> s.contains(e) || e == last,
{
    if s.push(last).contains(e) {
        let i = choose|i: int| 0 <= i < s.push(last).len() && s.push(last)[i] == e;
        if i < s.len() {
            assert(s[i] == e);
        }
    }
    if s.contains(e) {
        let i = choose|i: int| 0 <= i < s.len() && s[i] == e;
        assert(s.push(last)[i] == e);
    }
    if e == last {
        assert(s.push(last)[s.len() as int] == e);
    }
}

/// The answer to a similarity query, with one score for each embedding,
/// has as many results as asked for, or one for each embedding that passes
/// the filter where those are fewer; with a filter without groups these are
/// all embeddings of the collection. Its scores come best first under the
/// metric of the collection; each result is an embedding of the collection
/// that passes the filter, with its score; and no id occurs twice in it.
pub proof fn lemma_ranking(
    c: CollectionView,
    filter: Seq<Map<Seq<char>, Seq<char>>>,
    scores: Seq<u32>,
    k: nat,
    out: Seq<SimilarityView>,
)
    requires
        c.wf(),
        c.embeddings.len() <= usize::MAX,
        scores.len() == c.embeddings.len(),
        is_ranking(c, filter, scores, k, out),
    ensures
        out.len() == if k <= matching(c.embeddings, filter).len() {
            k
        } else {
            matching(c.embeddings, filter).len()
        },
        filter.len() == 0 ==> out.len() == if k <= c.embeddings.len() {
            k
        } else {
            c.embeddings.len()
        },
        forall|i: int, j: int|
            0 <= i <= j < out.len() ==> rank_key(c.distance, out[i].score) <= rank_key(
                c.distance,
                out[j].score,
            ),
        forall|i: int, j: int| 0 <= i < j < out.len() ==> out[i].embedding.id != out[j].embedding.id,
        forall|i: int|
            0 <= i < out.len() ==> has_id(c.embeddings, (#[trigger] out[i]).embedding.id)
                && matches_filter(out[i].embedding.metadata, filter) && exists|p: int|
                0 <= p < c.embeddings.len() && c.embeddings[p] == out[i].embedding && scores[p]
                    == out[i].score,
{
    if filter.len() == 0 {
        lemma_empty_filter_matches_all(c.embeddings);
        assert(filter =~= Seq::empty());
    }
    let es = c.embeddings;
    let found = candidates(es, filter, scores);
    let picked = choose|picked: Seq<ScoreIndex>|
        #![trigger ranked(es, picked)]
        is_top_k(found, k, c.distance, picked) && out == ranked(es, picked);
    lemma_candidates(es, filter, scores);
    broadcast use group_multiset_axioms, group_to_multiset_ensures;
    // Each chosen candidate is one of the candidates.
    assert forall|t: int| 0 <= t < picked.len() implies found.contains(#[trigger] picked[t]) by {
        assert(picked.contains(picked[t]));
        assert(picked.to_multiset().count(picked[t]) > 0);
        assert(found.to_multiset().count(picked[t]) > 0);
    }
    // No candidate occurs twice, so none is chosen twice.
    assert(found.no_duplicates()) by {
        assert forall|a: int, b: int| 0 <= a < found.len() && 0 <= b < found.len() && a
            != b implies found[a] != found[b] by {
            if a < b {
                assert(found[a].index < found[b].index);
            } else {
                assert(found[b].index < found[a].index);
            }
        }
    }
    found.lemma_multiset_has_no_duplicates();
    assert forall|x: ScoreIndex| picked.to_multiset().contains(x) implies picked.to_multiset().count(
        x,
    ) == 1 by {
        assert(picked.to_multiset().count(x) <= found.to_multiset().count(x));
        assert(found.to_multiset().contains(x));
    }
    picked.lemma_multiset_has_no_duplicates_conv();
    assert forall|i: int, j: int| 0 <= i < j < out.len() implies out[i].embedding.id
        != out[j].embedding.id by {
        assert(picked[i] != picked[j]);
        let a = choose|a: int| 0 <= a < found.len() && found[a] == picked[i];
        let b = choose|b: int| 0 <= b < found.len() && found[b] == picked[j];
        if a < b {
            assert(found[a].index < found[b].index);
        } else if b < a {
            assert(found[b].index < found[a].index);
        }
        let p = picked[i].index as int;
        let q = picked[j].index as int;
        if p < q {
            assert(es[p].id != es[q].id);
        } else {
            assert(es[q].id != es[p].id);
        }
    }
    assert forall|i: int| 0 <= i < out.len() implies has_id(es, (#[trigger] out[i]).embedding.id)
        && matches_filter(out[i].embedding.metadata, filter) && exists|p: int|
        0 <= p < es.len() && es[p] == out[i].embedding && scores[p] == out[i].score by {
        let a = choose|a: int| 0 <= a < found.len() && found[a] == picked[i];
        let p = picked[i].index as int;
        assert(es[p].id == out[i].embedding.id);
        assert(es[p] == out[i].embedding && scores[p] == out[i].score);
    }
    assert forall|i: int, j: int| 0 <= i <= j < out.len() implies rank_key(
        c.distance,
        out[i].score,
    ) <= rank_key(c.distance, out[j].score) by {
        assert(picked[i].key(c.distance) <= picked[j].key(c.distance));
    }
}

/// A store that is read back from its stored form holds what it held: the
/// stored form of a store is accepted by `from_snapshot`, and the store that
/// comes back has the same collections under the same names, with the same
/// dimensions, metrics, embeddings and metadata.
pub proof fn lemma_snapshot_round_trip(db: Db, back: Db)
    requires
        db.wf(),
        back.stored() == db.stored(),
        back.entries() == entries_of(back.stored()),
    ensures
        valid_snapshot(db.stored()),
        back.entries() == db.entries(),
        back@ == db@,
{
}

} // verus!
