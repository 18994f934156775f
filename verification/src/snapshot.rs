//! The stored form of a store: plain values that are written as one binary
//! blob, and the rules by which a blob that was read back is accepted.
//!
//! The stored form of a store is the list of its collections with their
//! names; that of a collection is its dimension, the tag of its metric and
//! the list of its embeddings; that of an embedding is its id, its vector
//! and, where it has metadata, the list of their pairs.

use vstd::prelude::*;
use crate::model::{distinct_ids, CollectionView, EmbeddingView};
use crate::similarity::Distance;
use crate::strmap::{distinct_keys, pair_views, pairs_map};

verus! {

pub type StoredEmbedding = (String, Vec<u32>, Option<Vec<(String, String)>>);

pub type StoredCollection = (u64, u32, Vec<StoredEmbedding>);

pub type Snapshot = Vec<(String, StoredCollection)>;

pub type StoredEmbeddingView = (Seq<char>, Seq<u32>, Option<Seq<(Seq<char>, Seq<char>)>>);

pub type StoredCollectionView = (u64, u32, Seq<StoredEmbeddingView>);

pub type SnapshotView = Seq<(Seq<char>, StoredCollectionView)>;

/// What the stored form of an embedding holds.
pub open spec fn stored_embedding_view(e: StoredEmbedding) -> StoredEmbeddingView {
    (
        e.0@,
        e.1@,
        match e.2 {
            Some(pairs) => Some(pair_views(pairs@)),
            None => None,
        },
    )
}

/// What the stored forms of a list of embeddings hold.
pub open spec fn stored_embedding_views(es: Seq<StoredEmbedding>) -> Seq<StoredEmbeddingView> {
    es.map_values(|e: StoredEmbedding| stored_embedding_view(e))
}

/// What the stored form of a collection holds.
pub open spec fn stored_collection_view(c: StoredCollection) -> StoredCollectionView {
    (c.0, c.1, stored_embedding_views(c.2@))
}

/// What the stored form of a store holds.
pub open spec fn snapshot_view(s: Seq<(String, StoredCollection)>) -> SnapshotView {
    s.map_values(|e: (String, StoredCollection)| (e.0@, stored_collection_view(e.1)))
}

/// The tag under which a metric is stored.
pub open spec fn tag_of(distance: Distance) -> u32 {
    match distance {
        Distance::Euclidean => 0,
        Distance::Cosine => 1,
        Distance::DotProduct => 2,
    }
}

/// The metric that a tag stands for.
pub open spec fn distance_of(tag: u32) -> Option<Distance> {
    if tag == 0 {
        Some(Distance::Euclidean)
    } else if tag == 1 {
        Some(Distance::Cosine)
    } else if tag == 2 {
        Some(Distance::DotProduct)
    } else {
        None
    }
}

/// The embedding that a stored form stands for.
pub open spec fn embedding_of(e: StoredEmbeddingView) -> EmbeddingView {
    EmbeddingView {
        id: e.0,
        vector: e.1,
        metadata: match e.2 {
            Some(pairs) => Some(pairs_map(pairs)),
            None => None,
        },
    }
}

/// The embeddings that a list of stored forms stands for.
pub open spec fn embeddings_of(es: Seq<StoredEmbeddingView>) -> Seq<EmbeddingView> {
    es.map_values(|e: StoredEmbeddingView| embedding_of(e))
}

/// The collection that a stored form stands for.
pub open spec fn collection_of(c: StoredCollectionView) -> CollectionView {
    CollectionView {
        dimension: c.0 as usize,
        distance: match distance_of(c.1) {
            Some(distance) => distance,
            None => Distance::Euclidean,
        },
        embeddings: embeddings_of(c.2),
    }
}

/// The named collections that the stored form of a store stands for.
pub open spec fn entries_of(s: SnapshotView) -> Seq<(Seq<char>, CollectionView)> {
    s.map_values(|e: (Seq<char>, StoredCollectionView)| (e.0, collection_of(e.1)))
}

/// The stored metadata of an embedding have no key twice.
pub open spec fn valid_embedding(e: StoredEmbeddingView) -> bool {
    e.2 is Some ==> distinct_keys(e.2->0)
}

/// The stored form stands for a collection: the dimension is positive and
/// fits the machine, the tag is that of a metric, every vector has the
/// dimension, no id occurs twice, and no metadata have a key twice.
pub open spec fn valid_collection(c: StoredCollectionView) -> bool {
    &&& 0 < c.0 <= usize::MAX
    &&& distance_of(c.1) is Some
    &&& distinct_ids(embeddings_of(c.2))
    &&& forall|i: int|
        0 <= i < c.2.len() ==> valid_embedding(#[trigger] c.2[i]) && c.2[i].1.len() == c.0
}

/// The stored form stands for a store: no name occurs twice, and each
/// collection is valid.
pub open spec fn valid_snapshot(s: SnapshotView) -> bool {
    &&& distinct_keys(s)
    &&& forall|i: int| 0 <= i < s.len() ==> valid_collection((#[trigger] s[i]).1)
}

/// The tag under which a metric is stored.
pub fn distance_tag(distance: Distance) -> (r: u32)
    ensures
        r == tag_of(distance),
        distance_of(r) == Some(distance),
{
    match distance {
        Distance::Euclidean => 0,
        Distance::Cosine => 1,
        Distance::DotProduct => 2,
    }
}

/// The metric that a tag stands for, if it stands for one.
pub fn distance_from_tag(tag: u32) -> (r: Option<Distance>)
    ensures
        r == distance_of(tag),
{
    if tag == 0 {
        Some(Distance::Euclidean)
    } else if tag == 1 {
        Some(Distance::Cosine)
    } else if tag == 2 {
        Some(Distance::DotProduct)
    } else {
        None
    }
}

/// The error of `bincode`. It is carried through and never looked into.
#[verifier::external_type_specification]
#[verifier::external_body]
pub struct ExErrorKind(bincode::ErrorKind);

/// The bytes that `bincode::serialize` gives for the stored form of a store.
pub uninterp spec fn snapshot_bytes(s: SnapshotView) -> Seq<u8>;

/// The stored form of a store that `bincode::deserialize` reads from bytes,
/// if it reads one.
pub uninterp spec fn snapshot_from_bytes(bytes: Seq<u8>) -> Option<SnapshotView>;

/// Writes the stored form of a store as one blob.
///
/// Trusted: this is `bincode::serialize`, with its fixed-width little-endian
/// encoding. It succeeds on every value of this shape: it writes into a
/// vector, it sets no limit on the number of bytes, and every list of the
/// value has its length. What it returns depends on the value alone; the
/// contract gives the bytes a name and says nothing else of them.
#[verifier::external_body]
pub(crate) fn encode_snapshot(s: &Snapshot) -> (r: Result<Vec<u8>, Box<bincode::ErrorKind>>)
    ensures
        r is Ok,
        r matches Ok(bytes) ==> bytes@ == snapshot_bytes(snapshot_view(s@)),
{
    bincode::serialize(s)
}

/// Reads the stored form of a store from a blob.
///
/// Trusted: this is `bincode::deserialize`, which fails on bytes that do not
/// hold a value of this shape. What it returns depends on the bytes alone;
/// the contract gives the value a name and says nothing else of it.
#[verifier::external_body]
pub(crate) fn decode_snapshot(bytes: &[u8]) -> (r: Result<Snapshot, Box<bincode::ErrorKind>>)
    ensures
        match r {
            Ok(s) => snapshot_from_bytes(bytes@) == Some(snapshot_view(s@)),
            Err(_) => snapshot_from_bytes(bytes@) is None,
        },
{
    bincode::deserialize(bytes)
}

} // verus!
