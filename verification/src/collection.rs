//! Embeddings and the collections that hold them.

use vstd::prelude::*;
use crate::db::Error;
use crate::filter::{filter_views, matches_filter, matches_metadata, metadata_view};
use crate::model::{
    candidates, distinct_ids, has_id, id_position, ids_of, is_ranking, lemma_candidates,
    lemma_candidates_step, lemma_id_position, lemma_matching_prefix, lemma_matching_step,
    lemma_picked_in_range, matching, ranked, remaining, stored_vector, vectors_fit,
    CollectionView, EmbeddingView, SimilarityView,
};
use crate::similarity::{Distance, ScoreIndex};
use crate::snapshot::{
    collection_of, distance_from_tag, distance_of, distance_tag, embedding_of, embeddings_of,
    stored_collection_view, stored_embedding_view, stored_embedding_views, tag_of,
    valid_collection, valid_embedding, StoredCollection, StoredCollectionView, StoredEmbedding,
    StoredEmbeddingView,
};
use crate::strmap::StringMap;
use crate::text::str_eq;
use crate::topk::select_top_k;

verus! {

/// A stored vector with its id and, optionally, metadata. The components of
/// the vector are IEEE 754 single-precision bit patterns.
#[derive(Debug)]
pub struct Embedding {
    pub id: String,
    pub vector: Vec<u32>,
    pub metadata: Option<StringMap>,
}

impl View for Embedding {
    type V = EmbeddingView;

    open spec fn view(&self) -> EmbeddingView {
        EmbeddingView { id: self.id@, vector: self.vector@, metadata: metadata_view(self.metadata) }
    }
}

/// The stored form of metadata that may be absent: the list of their pairs.
pub open spec fn stored_metadata(metadata: Option<StringMap>) -> Option<Seq<(Seq<char>, Seq<char>)>> {
    match metadata {
        Some(m) => Some(m.pairs()),
        None => None,
    }
}

impl Embedding {
    /// The stored form of the embedding. It stands for what the embedding
    /// holds.
    pub open spec fn stored(&self) -> StoredEmbeddingView {
        (self.id@, self.vector@, stored_metadata(self.metadata))
    }

    /// The stored form of the embedding.
    pub fn to_stored(&self) -> (r: StoredEmbedding)
        ensures
            stored_embedding_view(r) == self.stored(),
            valid_embedding(self.stored()),
            embedding_of(self.stored()) == self@,
    {
        let pairs = match &self.metadata {
            Some(m) => Some(m.to_pairs()),
            None => None,
        };
        (self.id.clone(), copy_vector(&self.vector), pairs)
    }

    /// The embedding that a stored form stands for; `None` where the
    /// stored metadata have a key twice.
    pub fn from_stored(stored: &StoredEmbedding) -> (r: Option<Embedding>)
        ensures
            r is Some <==> valid_embedding(stored_embedding_view(*stored)),
            r matches Some(e) ==> e.stored() == stored_embedding_view(*stored) && e@ == embedding_of(
                stored_embedding_view(*stored),
            ),
    {
        let metadata = match &stored.2 {
            Some(pairs) => match StringMap::try_from_pairs(pairs) {
                Some(m) => Some(m),
                None => {
                    return None;
                },
            },
            None => None,
        };
        Some(Embedding { id: stored.0.clone(), vector: copy_vector(&stored.1), metadata })
    }
}

/// A copy of a vector.
pub fn copy_vector(vector: &Vec<u32>) -> (r: Vec<u32>)
    ensures
        r@ == vector@,
{
    let mut r: Vec<u32> = Vec::new();
    let mut i: usize = 0;
    while i < vector.len()
        invariant
            i <= vector@.len(),
            r@ == vector@.take(i as int),
        decreases vector@.len() - i,
    {
        r.push(vector[i]);
        assert(r@ =~= vector@.take(i + 1));
        i += 1;
    }
    assert(vector@.take(i as int) =~= vector@);
    r
}

impl Clone for Embedding {
    fn clone(&self) -> (r: Embedding)
        ensures
            r@ == self@,
    {
        let metadata = match &self.metadata {
            Some(m) => Some(m.clone()),
            None => None,
        };
        Embedding { id: self.id.clone(), vector: copy_vector(&self.vector), metadata }
    }
}

/// Whether the filter lets the embedding pass.
pub fn match_embedding(embedding: &Embedding, filter: &[StringMap]) -> (r: bool)
    ensures
        r == matches_filter(embedding@.metadata, filter_views(filter@)),
{
    matches_metadata(&embedding.metadata, filter)
}

/// The views of a list of embeddings.
pub open spec fn embedding_views(embeddings: Seq<Embedding>) -> Seq<EmbeddingView> {
    embeddings.map_values(|e: Embedding| e@)
}

/// The views of a list of strings.
pub open spec fn string_views(strings: Seq<String>) -> Seq<Seq<char>> {
    strings.map_values(|s: String| s@)
}

/// One result of a similarity query: an embedding and its score.
#[derive(Debug)]
pub struct SimilarityResult {
    pub score: u32,
    pub embedding: Embedding,
}

impl View for SimilarityResult {
    type V = SimilarityView;

    open spec fn view(&self) -> SimilarityView {
        SimilarityView { score: self.score, embedding: self.embedding@ }
    }
}

/// The views of a list of results.
pub open spec fn result_views(results: Seq<SimilarityResult>) -> Seq<SimilarityView> {
    results.map_values(|r: SimilarityResult| r@)
}

/// A named, fixed-dimension, fixed-metric list of embeddings.
#[derive(Debug)]
pub struct Collection {
    dimension: usize,
    distance: Distance,
    embeddings: Vec<Embedding>,
}

impl View for Collection {
    type V = CollectionView;

    closed spec fn view(&self) -> CollectionView {
        CollectionView {
            dimension: self.dimension,
            distance: self.distance,
            embeddings: embedding_views(self.embeddings@),
        }
    }
}

/// The stored forms of a list of embeddings.
pub open spec fn stored_embeddings(embeddings: Seq<Embedding>) -> Seq<StoredEmbeddingView> {
    embeddings.map_values(|e: Embedding| e.stored())
}

impl Collection {
    #[verifier::type_invariant]
    spec fn valid(&self) -> bool {
        self@.wf()
    }

    /// The stored form of the collection. It stands for what the
    /// collection holds.
    pub closed spec fn stored(&self) -> StoredCollectionView {
        (self.dimension as u64, tag_of(self.distance), stored_embeddings(self.embeddings@))
    }

    /// An empty collection.
    pub fn new(dimension: usize, distance: Distance) -> (r: Collection)
        requires
            dimension > 0,
        ensures
            r@ == (CollectionView { dimension, distance, embeddings: Seq::empty() }),
            r@.wf(),
            r.stored() == (dimension as u64, tag_of(distance), Seq::<StoredEmbeddingView>::empty()),
    {
        let r = Collection { dimension, distance, embeddings: Vec::new() };
        assert(r@.embeddings =~= Seq::empty());
        assert(r.stored().2 =~= Seq::<StoredEmbeddingView>::empty());
        r
    }

    /// The stored form of the collection.
    pub fn to_stored(&self) -> (r: StoredCollection)
        ensures
            stored_collection_view(r) == self.stored(),
            valid_collection(self.stored()),
            collection_of(self.stored()) == self@,
    {
        proof {
            use_type_invariant(self);
        }
        let mut stored: Vec<StoredEmbedding> = Vec::new();
        let mut i: usize = 0;
        while i < self.embeddings.len()
            invariant
                i <= self.embeddings@.len(),
                stored_embedding_views(stored@) == stored_embeddings(self.embeddings@).take(i as int),
                forall|j: int|
                    0 <= j < i ==> valid_embedding(#[trigger] stored_embeddings(self.embeddings@)[j])
                        && embedding_of(stored_embeddings(self.embeddings@)[j])
                        == self.embeddings@[j]@,
            decreases self.embeddings@.len() - i,
        {
            let ghost held = stored_embedding_views(stored@);
            let e = self.embeddings[i].to_stored();
            stored.push(e);
            proof {
                let all = stored_embeddings(self.embeddings@);
                assert(stored_embedding_views(stored@) =~= held.push(all[i as int]));
                assert(all.take(i + 1) =~= all.take(i as int).push(all[i as int]));
            }
            i += 1;
        }
        proof {
            let all = stored_embeddings(self.embeddings@);
            assert(all.take(i as int) =~= all);
            assert(embeddings_of(all) =~= self@.embeddings);
            assert forall|j: int| 0 <= j < all.len() implies valid_embedding(#[trigger] all[j])
                && all[j].1.len() == self.dimension as u64 by {
                assert(self@.embeddings[j].vector.len() == self.dimension);
            }
        }
        (self.dimension as u64, distance_tag(self.distance), stored)
    }

    /// The collection that a stored form stands for; `None` where the
    /// stored form is not valid.
    pub fn from_stored(stored: &StoredCollection) -> (r: Option<Collection>)
        ensures
            r is Some <==> valid_collection(stored_collection_view(*stored)),
            r matches Some(c) ==> c.stored() == stored_collection_view(*stored) && c@
                == collection_of(stored_collection_view(*stored)),
    {
        let ghost view = stored_collection_view(*stored);
        if stored.0 == 0 || stored.0 > usize::MAX as u64 {
            return None;
        }
        let distance = match distance_from_tag(stored.1) {
            Some(distance) => distance,
            None => {
                return None;
            },
        };
        let mut c = Collection::new(stored.0 as usize, distance);
        let mut i: usize = 0;
        proof {
            assert(view.2.take(0) =~= Seq::<StoredEmbeddingView>::empty());
            assert(embeddings_of(view.2.take(0)) =~= Seq::<EmbeddingView>::empty());
        }
        while i < stored.2.len()
            invariant
                i <= stored.2@.len(),
                view == stored_collection_view(*stored),
                0 < stored.0 <= usize::MAX,
                distance_of(stored.1) == Some(distance),
                c.stored() == (view.0, view.1, view.2.take(i as int)),
                c@ == (CollectionView {
                    dimension: stored.0 as usize,
                    distance,
                    embeddings: embeddings_of(view.2.take(i as int)),
                }),
                c@.wf(),
                forall|j: int|
                    0 <= j < i ==> valid_embedding(#[trigger] view.2[j]) && view.2[j].1.len()
                        == view.0,
            decreases stored.2@.len() - i,
        {
            let ghost taken = view.2.take(i as int);
            let ghost next = view.2[i as int];
            proof {
                assert(view.2.take(i + 1) =~= taken.push(next));
                assert(embeddings_of(view.2.take(i + 1)) =~= embeddings_of(taken).push(
                    embedding_of(next),
                ));
            }
            let e = match Embedding::from_stored(&stored.2[i]) {
                Some(e) => e,
                None => {
                    return None;
                },
            };
            let Embedding { id, vector, metadata } = e;
            match c.add(id, vector, metadata) {
                Ok(_) => {},
                Err(_) => {
                    proof {
                        if next.1.len() == view.0 {
                            let all = embeddings_of(view.2);
                            let j = choose|j: int|
                                0 <= j < embeddings_of(taken).len() && (#[trigger] embeddings_of(
                                    taken,
                                )[j]).id == next.0;
                            assert(all[j].id == all[i as int].id);
                        }
                    }
                    return None;
                },
            }
            i += 1;
        }
        proof {
            assert(view.2.take(i as int) =~= view.2);
        }
        Some(c)
    }

    /// The number of components that each vector of the collection has.
    pub fn dimension(&self) -> (r: usize)
        ensures
            r == self@.dimension,
            self@.wf(),
    {
        proof {
            use_type_invariant(self);
        }
        self.dimension
    }

    /// The metric of the collection.
    pub fn distance(&self) -> (r: Distance)
        ensures
            r == self@.distance,
    {
        self.distance
    }

    /// The number of embeddings.
    pub fn len(&self) -> (r: usize)
        ensures
            r == self@.embeddings.len(),
    {
        self.embeddings.len()
    }

    /// The embeddings, in the order in which they came in.
    pub fn embeddings(&self) -> (r: &Vec<Embedding>)
        ensures
            embedding_views(r@) == self@.embeddings,
            self@.wf(),
    {
        proof {
            use_type_invariant(self);
        }
        &self.embeddings
    }

    /// The place of the embedding with the id.
    fn position(&self, id: &str) -> (r: Option<usize>)
        ensures
            match r {
                Some(i) => i < self@.embeddings.len() && self@.embeddings[i as int].id == id@
                    && id_position(self@.embeddings, id@) == i && has_id(self@.embeddings, id@),
                None => !has_id(self@.embeddings, id@),
            },
    {
        let mut i: usize = 0;
        while i < self.embeddings.len()
            invariant
                i <= self.embeddings@.len(),
                forall|j: int| 0 <= j < i ==> (#[trigger] self@.embeddings[j]).id != id@,
            decreases self.embeddings@.len() - i,
        {
            if str_eq(self.embeddings[i].id.as_str(), id) {
                proof {
                    lemma_id_position(self@.embeddings, id@, i as int);
                }
                return Some(i);
            }
            i += 1;
        }
        None
    }

    /// Adds an embedding with the vector that is to be kept. The vector must
    /// have the dimension of the collection, and the id must be new to it.
    /// Nothing changes where the call fails.
    fn add(&mut self, id: String, vector: Vec<u32>, metadata: Option<StringMap>) -> (r: Result<
        (),
        Error,
    >)
        ensures
            final(self)@.wf(),
            r is Ok <==> vector@.len() == old(self)@.dimension && !has_id(old(self)@.embeddings, id@),
            r == Err::<(), Error>(Error::DimensionMismatch) <==> vector@.len() != old(self)@.dimension,
            r == Err::<(), Error>(Error::UniqueViolation) <==> vector@.len() == old(self)@.dimension
                && has_id(old(self)@.embeddings, id@),
            r is Err ==> final(self)@ == old(self)@,
            r is Ok ==> final(self)@ == (CollectionView {
                embeddings: old(self)@.embeddings.push(
                    EmbeddingView { id: id@, vector: vector@, metadata: metadata_view(metadata) },
                ),
                ..old(self)@
            }),
            r is Ok ==> final(self).stored() == (
                old(self).stored().0,
                old(self).stored().1,
                old(self).stored().2.push((id@, vector@, stored_metadata(metadata))),
            ),
    {
        proof {
            use_type_invariant(&*self);
        }
        if vector.len() != self.dimension {
            return Err(Error::DimensionMismatch);
        }
        if self.position(id.as_str()).is_some() {
            return Err(Error::UniqueViolation);
        }
        let ghost before = self@.embeddings;
        let embedding = Embedding { id, vector, metadata };
        let ghost added = embedding@;
        let mut held: Vec<Embedding> = Vec::new();
        std::mem::swap(&mut held, &mut self.embeddings);
        let ghost stored_before = stored_embeddings(held@);
        held.push(embedding);
        proof {
            assert(embedding_views(held@) =~= before.push(added));
            assert(stored_embeddings(held@) =~= stored_before.push(embedding.stored()));
        }
        self.embeddings = held;
        Ok(())
    }

    /// Adds an embedding. `unit` is the vector scaled to unit length, as the
    /// caller has computed it: a collection whose metric stores unit vectors
    /// keeps `unit`, any other keeps `vector` and does not look at `unit`.
    /// The vector, and `unit` where it is kept, must have the dimension of
    /// the collection; then the id must be new to the collection. Nothing
    /// changes where the call fails.
    pub fn insert(
        &mut self,
        id: String,
        vector: Vec<u32>,
        unit: Vec<u32>,
        metadata: Option<StringMap>,
    ) -> (r: Result<(), Error>)
        ensures
            final(self)@.wf(),
            r is Ok <==> vectors_fit(old(self)@, vector@, unit@) && !has_id(
                old(self)@.embeddings,
                id@,
            ),
            r == Err::<(), Error>(Error::DimensionMismatch) <==> !vectors_fit(
                old(self)@,
                vector@,
                unit@,
            ),
            r == Err::<(), Error>(Error::UniqueViolation) <==> vectors_fit(
                old(self)@,
                vector@,
                unit@,
            ) && has_id(old(self)@.embeddings, id@),
            r is Err ==> final(self)@ == old(self)@,
            r is Ok ==> final(self)@ == (CollectionView {
                embeddings: old(self)@.embeddings.push(
                    EmbeddingView {
                        id: id@,
                        vector: stored_vector(old(self)@.distance, vector@, unit@),
                        metadata: metadata_view(metadata),
                    },
                ),
                ..old(self)@
            }),
    {
        proof {
            use_type_invariant(&*self);
        }
        if vector.len() != self.dimension {
            return Err(Error::DimensionMismatch);
        }
        if self.distance.stores_unit_vectors() {
            self.add(id, unit, metadata)
        } else {
            self.add(id, vector, metadata)
        }
    }

    /// The embedding with the id, if there is one.
    pub fn get_by_id(&self, id: &str) -> (r: Option<&Embedding>)
        ensures
            match r {
                Some(e) => has_id(self@.embeddings, id@) && e@ == self@.embeddings[id_position(
                    self@.embeddings,
                    id@,
                )] && e@.id == id@,
                None => !has_id(self@.embeddings, id@),
            },
    {
        match self.position(id) {
            Some(i) => Some(&self.embeddings[i]),
            None => None,
        }
    }

    /// Removes the embedding with the id, and says whether there was one.
    pub fn delete_by_id(&mut self, id: &str) -> (r: bool)
        ensures
            final(self)@.wf(),
            r == has_id(old(self)@.embeddings, id@),
            !has_id(final(self)@.embeddings, id@),
            final(self)@ == (CollectionView {
                embeddings: if r {
                    old(self)@.embeddings.remove(id_position(old(self)@.embeddings, id@))
                } else {
                    old(self)@.embeddings
                },
                ..old(self)@
            }),
    {
        proof {
            use_type_invariant(&*self);
        }
        let ghost before = self@.embeddings;
        match self.position(id) {
            Some(i) => {
                let mut held: Vec<Embedding> = Vec::new();
                std::mem::swap(&mut held, &mut self.embeddings);
                held.remove(i);
                proof {
                    let after = embedding_views(held@);
                    assert(after =~= before.remove(i as int));
                    assert forall|a: int| 0 <= a < after.len() implies (#[trigger] after[a]).id
                        != id@ by {
                        if a < i {
                            assert(before[a].id != before[i as int].id);
                        } else {
                            assert(before[i as int].id != before[a + 1].id);
                        }
                    }
                    assert forall|a: int, b: int| 0 <= a < b < after.len() implies after[a].id
                        != after[b].id by {
                        let a0 = if a < i { a } else { a + 1 };
                        let b0 = if b < i { b } else { b + 1 };
                        assert(before[a0].id != before[b0].id);
                    }
                }
                self.embeddings = held;
                true
            },
            None => false,
        }
    }

    /// The ids of all embeddings, in the order in which they came in.
    pub fn list_ids(&self) -> (r: Vec<String>)
        ensures
            string_views(r@) == ids_of(self@.embeddings),
    {
        let mut r: Vec<String> = Vec::new();
        let mut i: usize = 0;
        while i < self.embeddings.len()
            invariant
                i <= self.embeddings@.len(),
                string_views(r@) == ids_of(self@.embeddings).take(i as int),
            decreases self.embeddings@.len() - i,
        {
            let ghost held = string_views(r@);
            let id = self.embeddings[i].id.clone();
            r.push(id);
            proof {
                assert(string_views(r@) =~= held.push(id@));
                assert(ids_of(self@.embeddings).take(i + 1) =~= ids_of(self@.embeddings).take(
                    i as int,
                ).push(self@.embeddings[i as int].id));
            }
            i += 1;
        }
        assert(ids_of(self@.embeddings).take(i as int) =~= ids_of(self@.embeddings));
        r
    }

    /// The first `k` embeddings that pass the filter, in the order in which
    /// they came in.
    pub fn query_by_filter(&self, filter: &[StringMap], k: usize) -> (r: Vec<Embedding>)
        ensures
            r@.len() == if k <= matching(self@.embeddings, filter_views(filter@)).len() {
                k as nat
            } else {
                matching(self@.embeddings, filter_views(filter@)).len()
            },
            embedding_views(r@) == matching(self@.embeddings, filter_views(filter@)).take(
                r@.len() as int,
            ),
    {
        let ghost es = self@.embeddings;
        let ghost fv = filter_views(filter@);
        let mut r: Vec<Embedding> = Vec::new();
        let mut i: usize = 0;
        proof {
            reveal(Seq::filter);
            assert(es.take(0) =~= Seq::<EmbeddingView>::empty());
            assert(embedding_views(r@) =~= matching(es.take(0), fv));
        }
        while i < self.embeddings.len() && r.len() < k
            invariant
                i <= self.embeddings@.len(),
                es == self@.embeddings,
                fv == filter_views(filter@),
                r@.len() <= k,
                embedding_views(r@) == matching(es.take(i as int), fv),
            decreases self.embeddings@.len() - i,
        {
            proof {
                lemma_matching_step(es, fv, i as int);
            }
            if match_embedding(&self.embeddings[i], filter) {
                let ghost held = embedding_views(r@);
                let e = self.embeddings[i].clone();
                r.push(e);
                assert(embedding_views(r@) =~= held.push(es[i as int]));
            }
            i += 1;
        }
        proof {
            lemma_matching_prefix(es, fv, i as int);
            if i == self.embeddings@.len() {
                assert(es.take(i as int) =~= es);
            }
        }
        r
    }

    /// Removes every embedding that passes the filter, and returns how many
    /// there were. The others keep their order.
    pub fn delete_by_filter(&mut self, filter: &[StringMap]) -> (r: usize)
        ensures
            final(self)@.wf(),
            final(self)@ == (CollectionView {
                embeddings: remaining(old(self)@.embeddings, filter_views(filter@)),
                ..old(self)@
            }),
            r == matching(old(self)@.embeddings, filter_views(filter@)).len(),
            r + final(self)@.embeddings.len() == old(self)@.embeddings.len(),
    {
        proof {
            use_type_invariant(&*self);
        }
        let ghost es = self@.embeddings;
        let ghost fv = filter_views(filter@);
        let mut held: Vec<Embedding> = Vec::new();
        std::mem::swap(&mut held, &mut self.embeddings);
        let n = held.len();
        // The embeddings are moved to a stack, last first, and taken from it
        // in their order again.
        let mut stack: Vec<Embedding> = Vec::new();
        while held.len() > 0
            invariant
                n == es.len(),
                held@.len() + stack@.len() == n,
                embedding_views(held@) == es.take(held@.len() as int),
                forall|j: int| 0 <= j < stack@.len() ==> (#[trigger] stack@[j])@ == es[n - 1 - j],
            decreases held@.len(),
        {
            let ghost before = embedding_views(held@);
            let e = held.pop().unwrap();
            assert(e@ == before[before.len() - 1]);
            assert(embedding_views(held@) =~= es.take(held@.len() as int));
            stack.push(e);
        }
        let mut kept: Vec<Embedding> = Vec::new();
        let mut removed: usize = 0;
        let mut i: usize = 0;
        proof {
            reveal(Seq::filter);
            assert(es.take(0) =~= Seq::<EmbeddingView>::empty());
            assert(embedding_views(kept@) =~= remaining(es.take(0), fv));
        }
        while stack.len() > 0
            invariant
                n == es.len(),
                fv == filter_views(filter@),
                i + stack@.len() == n,
                forall|j: int| 0 <= j < stack@.len() ==> (#[trigger] stack@[j])@ == es[n - 1 - j],
                embedding_views(kept@) == remaining(es.take(i as int), fv),
                removed == matching(es.take(i as int), fv).len(),
                removed + kept@.len() == i,
                distinct_ids(es),
                distinct_ids(embedding_views(kept@)),
                forall|a: int|
                    0 <= a < kept@.len() ==> exists|b: int|
                        0 <= b < i && (#[trigger] embedding_views(kept@)[a]) == es[b],
            decreases stack@.len(),
        {
            proof {
                lemma_matching_step(es, fv, i as int);
            }
            let ghost top = stack@[stack@.len() - 1];
            let e = stack.pop().unwrap();
            assert(e@ == top@);
            assert(e@ == es[i as int]);
            if match_embedding(&e, filter) {
                removed += 1;
            } else {
                let ghost before = embedding_views(kept@);
                kept.push(e);
                proof {
                    let after = embedding_views(kept@);
                    assert(after =~= before.push(es[i as int]));
                    assert forall|a: int| 0 <= a < after.len() implies exists|b: int|
                        0 <= b < i + 1 && (#[trigger] after[a]) == es[b] by {
                        if a < before.len() {
                            let b = choose|b: int| 0 <= b < i && before[a] == es[b];
                            assert(after[a] == es[b]);
                        } else {
                            assert(after[a] == es[i as int]);
                        }
                    }
                    assert forall|a: int, c: int| 0 <= a < c < after.len() implies after[a].id
                        != after[c].id by {
                        if c < before.len() {
                            assert(before[a].id != before[c].id);
                        } else {
                            let b = choose|b: int| 0 <= b < i && before[a] == es[b];
                            assert(es[b].id != es[i as int].id);
                        }
                    }
                }
            }
            i += 1;
        }
        proof {
            assert(es.take(i as int) =~= es);
            let after = embedding_views(kept@);
            assert forall|a: int| 0 <= a < after.len() implies (#[trigger] after[a]).vector.len()
                == self.dimension by {
                let b = choose|b: int| 0 <= b < i && after[a] == es[b];
                assert(es[b].vector.len() == self.dimension);
            }
        }
        self.embeddings = kept;
        removed
    }

    /// The candidates of a query: for each embedding that passes the
    /// filter, its place and the score at that place. `scores` holds the
    /// score of each embedding at its place.
    pub fn candidates(&self, filter: &[StringMap], scores: &[u32]) -> (r: Vec<ScoreIndex>)
        requires
            scores@.len() == self@.embeddings.len(),
        ensures
            r@ == candidates(self@.embeddings, filter_views(filter@), scores@),
    {
        let ghost es = self@.embeddings;
        let ghost fv = filter_views(filter@);
        let mut r: Vec<ScoreIndex> = Vec::new();
        let mut i: usize = 0;
        proof {
            assert(es.take(0) =~= Seq::<EmbeddingView>::empty());
        }
        while i < self.embeddings.len()
            invariant
                i <= self.embeddings@.len(),
                scores@.len() == self.embeddings@.len(),
                es == self@.embeddings,
                fv == filter_views(filter@),
                r@ == candidates(es.take(i as int), fv, scores@),
            decreases self.embeddings@.len() - i,
        {
            proof {
                lemma_candidates_step(es, fv, scores@, i as int);
            }
            if match_embedding(&self.embeddings[i], filter) {
                r.push(ScoreIndex { score: scores[i], index: i });
            }
            i += 1;
        }
        proof {
            assert(es.take(i as int) =~= es);
        }
        r
    }

    /// The `k` embeddings that pass the filter and have the best scores,
    /// best first. `scores` holds, at the place of each embedding, its score
    /// against the query, as computed by the caller under the metric of the
    /// collection: one score for each embedding.
    pub fn get_by_metadata_and_similarity(
        &self,
        filter: &[StringMap],
        scores: &[u32],
        k: usize,
    ) -> (r: Vec<SimilarityResult>)
        requires
            scores@.len() == self@.embeddings.len(),
        ensures
            is_ranking(self@, filter_views(filter@), scores@, k as nat, result_views(r@)),
            r@.len() == if k <= matching(self@.embeddings, filter_views(filter@)).len() {
                k as nat
            } else {
                matching(self@.embeddings, filter_views(filter@)).len()
            },
    {
        let ghost es = self@.embeddings;
        let ghost fv = filter_views(filter@);
        let found = self.candidates(filter, scores);
        let picked = select_top_k(found.as_slice(), k, self.distance);
        let n = self.embeddings.len();
        proof {
            assert(es.len() == n);
            lemma_candidates(es, fv, scores@);
            lemma_picked_in_range(found@, k as nat, self.distance, picked@, es.len() as int);
        }
        let mut r: Vec<SimilarityResult> = Vec::new();
        let mut j: usize = 0;
        while j < picked.len()
            invariant
                j <= picked@.len(),
                es == self@.embeddings,
                forall|t: int| 0 <= t < picked@.len() ==> (#[trigger] picked@[t]).index < es.len(),
                result_views(r@) == ranked(es, picked@).take(j as int),
            decreases picked@.len() - j,
        {
            let c = picked[j];
            let ghost held = result_views(r@);
            let embedding = self.embeddings[c.index].clone();
            r.push(SimilarityResult { score: c.score, embedding });
            proof {
                assert(result_views(r@) =~= held.push(ranked(es, picked@)[j as int]));
                assert(ranked(es, picked@).take(j + 1) =~= ranked(es, picked@).take(j as int).push(
                    ranked(es, picked@)[j as int],
                ));
            }
            j += 1;
        }
        proof {
            assert(ranked(es, picked@).take(j as int) =~= ranked(es, picked@));
        }
        r
    }

    /// Answers a similarity query: the `k` embeddings that pass the filter
    /// and have the best scores, best first. The query must have the
    /// dimension of the collection. `scores` is as for
    /// `get_by_metadata_and_similarity`.
    pub fn query_similarity(
        &self,
        query: &[u32],
        k: usize,
        filter: &[StringMap],
        scores: &[u32],
    ) -> (r: Result<Vec<SimilarityResult>, Error>)
        requires
            scores@.len() == self@.embeddings.len(),
        ensures
            match r {
                Ok(results) => query@.len() == self@.dimension && is_ranking(
                    self@,
                    filter_views(filter@),
                    scores@,
                    k as nat,
                    result_views(results@),
                ) && results@.len() == if k <= matching(
                    self@.embeddings,
                    filter_views(filter@),
                ).len() {
                    k as nat
                } else {
                    matching(self@.embeddings, filter_views(filter@)).len()
                },
                Err(e) => query@.len() != self@.dimension && e == Error::DimensionMismatch,
            },
    {
        if query.len() != self.dimension {
            return Err(Error::DimensionMismatch);
        }
        Ok(self.get_by_metadata_and_similarity(filter, scores, k))
    }
}

} // verus!
