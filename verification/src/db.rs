//! The store: collections by name, and the form in which it is written
//! and read back.

use vstd::prelude::*;
use crate::collection::{string_views, Collection, Embedding};
use crate::filter::filter_views;
use crate::model::{
    has_id, id_position, matching, remaining, stored_vector, vectors_fit, CollectionView,
    EmbeddingView,
};
use crate::similarity::Distance;
use crate::snapshot::{
    collection_of, decode_snapshot, encode_snapshot, entries_of, snapshot_bytes,
    snapshot_from_bytes, snapshot_view, valid_collection, valid_snapshot, Snapshot, SnapshotView,
    StoredCollectionView,
};
use crate::strmap::{
    distinct_keys, has_key, key_position, lemma_key_position, lemma_pairs_map_dom,
    lemma_pairs_map_value, lemma_put, lemma_remove_pair, pairs_map, put, StringMap,
};
use crate::text::str_eq;

verus! {

/// What an operation on a store or a collection can fail with.
#[derive(Clone, Copy, Debug, PartialEq, Eq, Structural)]
pub enum Error {
    /// The name of the collection, or the id of the embedding, is taken.
    UniqueViolation,
    /// There is no collection of that name.
    NotFound,
    /// The vector has not as many components as the collection asks for.
    DimensionMismatch,
    /// The stored form of a store could not be written or read back.
    PersistenceFailure,
}

/// The names and views of a list of named collections.
pub open spec fn named_views(entries: Seq<(String, Collection)>) -> Seq<(Seq<char>, CollectionView)> {
    entries.map_values(|e: (String, Collection)| (e.0@, e.1@))
}

/// The names and stored forms of a list of named collections.
pub open spec fn named_stored(entries: Seq<(String, Collection)>) -> SnapshotView {
    entries.map_values(|e: (String, Collection)| (e.0@, e.1.stored()))
}

/// The store: collections by name.
#[derive(Debug)]
pub struct Db {
    collections: Vec<(String, Collection)>,
}

impl View for Db {
    type V = Map<Seq<char>, CollectionView>;

    open spec fn view(&self) -> Map<Seq<char>, CollectionView> {
        pairs_map(self.entries())
    }
}

impl Db {
    /// The collections with their names, in the order in which they were
    /// created.
    pub closed spec fn entries(&self) -> Seq<(Seq<char>, CollectionView)> {
        named_views(self.collections@)
    }

    /// The stored form of the store.
    pub closed spec fn stored(&self) -> SnapshotView {
        named_stored(self.collections@)
    }

    /// The stored form of the store is valid and stands for what the store
    /// holds. This holds of every store that the operations of this library
    /// have made.
    pub open spec fn wf(&self) -> bool {
        &&& valid_snapshot(self.stored())
        &&& entries_of(self.stored()) == self.entries()
    }

    #[verifier::type_invariant]
    spec fn valid(&self) -> bool {
        distinct_keys(self.entries())
    }

    /// A store without a collection.
    pub fn new() -> (r: Db)
        ensures
            r.entries() == Seq::<(Seq<char>, CollectionView)>::empty(),
            r.stored() == Seq::<(Seq<char>, StoredCollectionView)>::empty(),
            r@ == Map::<Seq<char>, CollectionView>::empty(),
    {
        let r = Db { collections: Vec::new() };
        assert(r.entries() =~= Seq::<(Seq<char>, CollectionView)>::empty());
        assert(r.stored() =~= Seq::<(Seq<char>, StoredCollectionView)>::empty());
        r
    }

    /// The place of the collection with the name.
    fn position(&self, name: &str) -> (r: Option<usize>)
        ensures
            distinct_keys(self.entries()),
            match r {
                Some(i) => i < self.entries().len() && self.entries()[i as int].0 == name@
                    && key_position(self.entries(), name@) == i && self@.contains_key(name@)
                    && self@[name@] == self.entries()[i as int].1,
                None => !has_key(self.entries(), name@) && !self@.contains_key(name@),
            },
    {
        proof {
            use_type_invariant(self);
            lemma_pairs_map_dom(self.entries(), name@);
        }
        let mut i: usize = 0;
        while i < self.collections.len()
            invariant
                i <= self.collections@.len(),
                distinct_keys(self.entries()),
                forall|j: int| 0 <= j < i ==> (#[trigger] self.entries()[j]).0 != name@,
            decreases self.collections@.len() - i,
        {
            if str_eq(self.collections[i].0.as_str(), name) {
                proof {
                    lemma_key_position(self.entries(), name@, i as int);
                    lemma_pairs_map_value(self.entries(), i as int);
                }
                return Some(i);
            }
            i += 1;
        }
        None
    }

    /// Creates an empty collection under a new name.
    pub fn create_collection(&mut self, name: String, dimension: usize, distance: Distance) -> (r:
        Result<(), Error>)
        requires
            dimension > 0,
        ensures
            r is Ok <==> !old(self)@.contains_key(name@),
            r is Err ==> r == Err::<(), Error>(Error::UniqueViolation) && final(self).entries()
                == old(self).entries(),
            r is Ok ==> final(self).entries() == old(self).entries().push(
                (name@, CollectionView { dimension, distance, embeddings: Seq::empty() }),
            ),
            r is Ok ==> final(self)@ == old(self)@.insert(
                name@,
                CollectionView { dimension, distance, embeddings: Seq::empty() },
            ),
    {
        if self.position(name.as_str()).is_some() {
            return Err(Error::UniqueViolation);
        }
        let ghost before = self.entries();
        let ghost made = CollectionView { dimension, distance, embeddings: Seq::empty() };
        proof {
            lemma_put(before, name@, made);
        }
        let collection = Collection::new(dimension, distance);
        let mut held: Vec<(String, Collection)> = Vec::new();
        std::mem::swap(&mut held, &mut self.collections);
        held.push((name, collection));
        proof {
            assert(named_views(held@) =~= before.push((name@, made)));
        }
        self.collections = held;
        Ok(())
    }

    /// Removes the collection of that name, with all that it holds.
    pub fn delete_collection(&mut self, name: &str) -> (r: Result<(), Error>)
        ensures
            r is Ok <==> old(self)@.contains_key(name@),
            r is Err ==> r == Err::<(), Error>(Error::NotFound) && final(self).entries() == old(
                self,
            ).entries(),
            r is Ok ==> final(self).entries() == old(self).entries().remove(
                key_position(old(self).entries(), name@),
            ),
            r is Ok ==> final(self)@ == old(self)@.remove(name@),
    {
        let ghost before = self.entries();
        match self.position(name) {
            Some(i) => {
                proof {
                    lemma_remove_pair(before, i as int);
                }
                let mut held: Vec<(String, Collection)> = Vec::new();
                std::mem::swap(&mut held, &mut self.collections);
                held.remove(i);
                proof {
                    assert(named_views(held@) =~= before.remove(i as int));
                }
                self.collections = held;
                Ok(())
            },
            None => Err(Error::NotFound),
        }
    }

    /// The collection of that name, if there is one.
    pub fn get_collection(&self, name: &str) -> (r: Option<&Collection>)
        ensures
            match r {
                Some(c) => self@.contains_key(name@) && c@ == self@[name@],
                None => !self@.contains_key(name@),
            },
    {
        match self.position(name) {
            Some(i) => Some(&self.collections[i].1),
            None => None,
        }
    }

    /// The names of all collections, in the order in which they were
    /// created. Each name of the store is listed once.
    pub fn list_collections(&self) -> (r: Vec<String>)
        ensures
            string_views(r@) == self.entries().map_values(|e: (Seq<char>, CollectionView)| e.0),
            string_views(r@).no_duplicates(),
            forall|name: Seq<char>| string_views(r@).contains(name) <==> self@.contains_key(name),
    {
        proof {
            use_type_invariant(self);
        }
        let ghost names = self.entries().map_values(|e: (Seq<char>, CollectionView)| e.0);
        let mut r: Vec<String> = Vec::new();
        let mut i: usize = 0;
        while i < self.collections.len()
            invariant
                i <= self.collections@.len(),
                names == self.entries().map_values(|e: (Seq<char>, CollectionView)| e.0),
                string_views(r@) == names.take(i as int),
            decreases self.collections@.len() - i,
        {
            let ghost held = string_views(r@);
            let name = self.collections[i].0.clone();
            r.push(name);
            proof {
                assert(string_views(r@) =~= held.push(name@));
                assert(names.take(i + 1) =~= names.take(i as int).push(names[i as int]));
            }
            i += 1;
        }
        proof {
            assert(names.take(i as int) =~= names);
            assert forall|a: int, b: int| 0 <= a < names.len() && 0 <= b < names.len() && a
                != b implies names[a] != names[b] by {
                if a < b {
                    assert(self.entries()[a].0 != self.entries()[b].0);
                } else {
                    assert(self.entries()[b].0 != self.entries()[a].0);
                }
            }
            assert forall|name: Seq<char>| names.contains(name) <==> self@.contains_key(name) by {
                lemma_pairs_map_dom(self.entries(), name);
                if names.contains(name) {
                    let j = choose|j: int| 0 <= j < names.len() && names[j] == name;
                    assert(self.entries()[j].0 == name);
                }
                if has_key(self.entries(), name) {
                    let j = choose|j: int|
                        0 <= j < self.entries().len() && (#[trigger] self.entries()[j]).0 == name;
                    assert(names[j] == name);
                }
            }
        }
        r
    }

    /// Adds an embedding to the collection of that name, as
    /// `Collection::insert` does: `unit` is the vector of the embedding
    /// scaled to unit length, which a collection that stores unit vectors
    /// keeps in place of the vector. Nothing changes where the call fails.
    pub fn insert_into_collection(
        &mut self,
        collection_name: &str,
        embedding: Embedding,
        unit: Vec<u32>,
    ) -> (r: Result<(), Error>)
        ensures
            r is Ok <==> old(self)@.contains_key(collection_name@) && vectors_fit(
                old(self)@[collection_name@],
                embedding@.vector,
                unit@,
            ) && !has_id(old(self)@[collection_name@].embeddings, embedding@.id),
            r == Err::<(), Error>(Error::NotFound) <==> !old(self)@.contains_key(collection_name@),
            r == Err::<(), Error>(Error::DimensionMismatch) <==> old(self)@.contains_key(
                collection_name@,
            ) && !vectors_fit(old(self)@[collection_name@], embedding@.vector, unit@),
            r == Err::<(), Error>(Error::UniqueViolation) <==> old(self)@.contains_key(
                collection_name@,
            ) && vectors_fit(old(self)@[collection_name@], embedding@.vector, unit@) && has_id(
                old(self)@[collection_name@].embeddings,
                embedding@.id,
            ),
            r is Err ==> final(self).entries() == old(self).entries(),
            r is Ok ==> final(self)@ == old(self)@.insert(
                collection_name@,
                CollectionView {
                    embeddings: old(self)@[collection_name@].embeddings.push(
                        EmbeddingView {
                            vector: stored_vector(
                                old(self)@[collection_name@].distance,
                                embedding@.vector,
                                unit@,
                            ),
                            ..embedding@
                        },
                    ),
                    ..old(self)@[collection_name@]
                },
            ),
            r is Ok ==> final(self).entries() == put(
                old(self).entries(),
                collection_name@,
                final(self)@[collection_name@],
            ),
    {
        let ghost before = self.entries();
        match self.position(collection_name) {
            Some(i) => {
                let mut held: Vec<(String, Collection)> = Vec::new();
                std::mem::swap(&mut held, &mut self.collections);
                let Embedding { id, vector, metadata } = embedding;
                let r = held[i].1.insert(id, vector, unit, metadata);
                proof {
                    let after = named_views(held@);
                    assert(after =~= before.update(i as int, (collection_name@, held@[i as int].1@)));
                    lemma_put(before, collection_name@, held@[i as int].1@);
                }
                self.collections = held;
                r
            },
            None => Err(Error::NotFound),
        }
    }

    /// Removes the embedding with the id from the collection of that name,
    /// as `Collection::delete_by_id` does, and says whether there was one.
    pub fn delete_by_id(&mut self, collection_name: &str, id: &str) -> (r: Result<bool, Error>)
        ensures
            r is Ok <==> old(self)@.contains_key(collection_name@),
            r is Err ==> r == Err::<bool, Error>(Error::NotFound) && final(self).entries() == old(
                self,
            ).entries(),
            match r {
                Ok(found) => {
                    let held = old(self)@[collection_name@];
                    &&& found == has_id(held.embeddings, id@)
                    &&& final(self)@ == old(self)@.insert(
                        collection_name@,
                        CollectionView {
                            embeddings: if found {
                                held.embeddings.remove(id_position(held.embeddings, id@))
                            } else {
                                held.embeddings
                            },
                            ..held
                        },
                    )
                    &&& final(self).entries() == put(
                        old(self).entries(),
                        collection_name@,
                        final(self)@[collection_name@],
                    )
                },
                Err(_) => true,
            },
    {
        let ghost before = self.entries();
        match self.position(collection_name) {
            Some(i) => {
                let mut held: Vec<(String, Collection)> = Vec::new();
                std::mem::swap(&mut held, &mut self.collections);
                let found = held[i].1.delete_by_id(id);
                proof {
                    let after = named_views(held@);
                    assert(after =~= before.update(i as int, (collection_name@, held@[i as int].1@)));
                    lemma_put(before, collection_name@, held@[i as int].1@);
                }
                self.collections = held;
                Ok(found)
            },
            None => Err(Error::NotFound),
        }
    }

    /// Removes every embedding that passes the filter from the collection of
    /// that name, as `Collection::delete_by_filter` does, and returns how
    /// many there were.
    pub fn delete_by_filter(&mut self, collection_name: &str, filter: &[StringMap]) -> (r: Result<
        usize,
        Error,
    >)
        ensures
            r is Ok <==> old(self)@.contains_key(collection_name@),
            r is Err ==> r == Err::<usize, Error>(Error::NotFound) && final(self).entries() == old(
                self,
            ).entries(),
            match r {
                Ok(removed) => {
                    let held = old(self)@[collection_name@];
                    &&& removed == matching(held.embeddings, filter_views(filter@)).len()
                    &&& final(self)@ == old(self)@.insert(
                        collection_name@,
                        CollectionView {
                            embeddings: remaining(held.embeddings, filter_views(filter@)),
                            ..held
                        },
                    )
                    &&& final(self).entries() == put(
                        old(self).entries(),
                        collection_name@,
                        final(self)@[collection_name@],
                    )
                },
                Err(_) => true,
            },
    {
        let ghost before = self.entries();
        match self.position(collection_name) {
            Some(i) => {
                let mut held: Vec<(String, Collection)> = Vec::new();
                std::mem::swap(&mut held, &mut self.collections);
                let removed = held[i].1.delete_by_filter(filter);
                proof {
                    let after = named_views(held@);
                    assert(after =~= before.update(i as int, (collection_name@, held@[i as int].1@)));
                    lemma_put(before, collection_name@, held@[i as int].1@);
                }
                self.collections = held;
                Ok(removed)
            },
            None => Err(Error::NotFound),
        }
    }

    /// The stored form of the store.
    pub fn to_snapshot(&self) -> (r: Snapshot)
        ensures
            snapshot_view(r@) == self.stored(),
            self.wf(),
    {
        proof {
            use_type_invariant(self);
        }
        let mut r: Snapshot = Vec::new();
        let mut i: usize = 0;
        while i < self.collections.len()
            invariant
                i <= self.collections@.len(),
                snapshot_view(r@) == self.stored().take(i as int),
                forall|j: int|
                    0 <= j < i ==> valid_collection((#[trigger] self.stored()[j]).1) && collection_of(
                        self.stored()[j].1,
                    ) == self.collections@[j].1@,
            decreases self.collections@.len() - i,
        {
            let ghost held = snapshot_view(r@);
            let name = self.collections[i].0.clone();
            let stored = self.collections[i].1.to_stored();
            r.push((name, stored));
            proof {
                let all = self.stored();
                assert(snapshot_view(r@) =~= held.push(all[i as int]));
                assert(all.take(i + 1) =~= all.take(i as int).push(all[i as int]));
            }
            i += 1;
        }
        proof {
            let all = self.stored();
            assert(all.take(i as int) =~= all);
            assert(entries_of(all) =~= self.entries());
            assert forall|a: int, b: int| 0 <= a < b < all.len() implies all[a].0 != all[b].0 by {
                assert(self.entries()[a].0 != self.entries()[b].0);
            }
        }
        r
    }

    /// The store that a stored form stands for. It fails, with
    /// `PersistenceFailure`, where the stored form is not valid.
    pub fn from_snapshot(snapshot: &Snapshot) -> (r: Result<Db, Error>)
        ensures
            r is Ok <==> valid_snapshot(snapshot_view(snapshot@)),
            r matches Ok(db) ==> db.stored() == snapshot_view(snapshot@) && db.entries() == entries_of(
                snapshot_view(snapshot@),
            ) && db.wf(),
            r matches Err(e) ==> e == Error::PersistenceFailure,
    {
        let ghost view = snapshot_view(snapshot@);
        let mut db = Db::new();
        let mut i: usize = 0;
        proof {
            assert(view.take(0) =~= Seq::<(Seq<char>, StoredCollectionView)>::empty());
            assert(entries_of(view.take(0)) =~= Seq::<(Seq<char>, CollectionView)>::empty());
        }
        while i < snapshot.len()
            invariant
                i <= snapshot@.len(),
                view == snapshot_view(snapshot@),
                db.stored() == view.take(i as int),
                db.entries() == entries_of(view.take(i as int)),
                distinct_keys(view.take(i as int)),
                forall|j: int| 0 <= j < i ==> valid_collection((#[trigger] view[j]).1),
            decreases snapshot@.len() - i,
        {
            let ghost taken = view.take(i as int);
            let ghost next = view[i as int];
            proof {
                assert(view.take(i + 1) =~= taken.push(next));
                assert(entries_of(view.take(i + 1)) =~= entries_of(taken).push(
                    (next.0, collection_of(next.1)),
                ));
            }
            if db.position(snapshot[i].0.as_str()).is_some() {
                proof {
                    let j = choose|j: int|
                        0 <= j < db.entries().len() && (#[trigger] db.entries()[j]).0 == next.0;
                    assert(view[j].0 == view[i as int].0);
                }
                return Err(Error::PersistenceFailure);
            }
            let collection = match Collection::from_stored(&snapshot[i].1) {
                Some(collection) => collection,
                None => {
                    return Err(Error::PersistenceFailure);
                },
            };
            let name = snapshot[i].0.clone();
            let ghost stored_before = db.stored();
            let ghost entries_before = db.entries();
            let mut held: Vec<(String, Collection)> = Vec::new();
            std::mem::swap(&mut held, &mut db.collections);
            held.push((name, collection));
            proof {
                assert(named_stored(held@) =~= stored_before.push(next));
                assert(named_views(held@) =~= entries_before.push((next.0, collection_of(next.1))));
                assert forall|a: int, b: int|
                    0 <= a < b < named_views(held@).len() implies named_views(held@)[a].0
                    != named_views(held@)[b].0 by {
                    if b < entries_before.len() {
                        assert(entries_before[a].0 != entries_before[b].0);
                    } else {
                        assert(entries_before[a].0 != next.0);
                    }
                }
                let grown = view.take(i + 1);
                assert forall|a: int, b: int| 0 <= a < b < grown.len() implies grown[a].0
                    != grown[b].0 by {
                    assert(named_views(held@)[a].0 != named_views(held@)[b].0);
                }
            }
            db.collections = held;
            i += 1;
        }
        proof {
            assert(view.take(i as int) =~= view);
        }
        Ok(db)
    }

    /// The store as one blob of bytes: the stored form of the store, written
    /// by `bincode`. This succeeds for every store.
    pub fn to_bytes(&self) -> (r: Result<Vec<u8>, Error>)
        ensures
            self.wf(),
            r is Ok,
            r matches Ok(bytes) ==> bytes@ == snapshot_bytes(self.stored()),
    {
        let snapshot = self.to_snapshot();
        match encode_snapshot(&snapshot) {
            Ok(bytes) => Ok(bytes),
            Err(_) => Err(Error::PersistenceFailure),
        }
    }

    /// The store that a blob of bytes holds. It fails, with
    /// `PersistenceFailure`, where `bincode` reads no stored form from the
    /// bytes, or the one that it reads is not valid.
    pub fn from_bytes(bytes: &[u8]) -> (r: Result<Db, Error>)
        ensures
            r is Ok <==> snapshot_from_bytes(bytes@) is Some && valid_snapshot(
                snapshot_from_bytes(bytes@)->0,
            ),
            r matches Ok(db) ==> db.stored() == snapshot_from_bytes(bytes@)->0 && db.entries()
                == entries_of(db.stored()) && db.wf(),
            r matches Err(e) ==> e == Error::PersistenceFailure,
    {
        match decode_snapshot(bytes) {
            Ok(snapshot) => Db::from_snapshot(&snapshot),
            Err(_) => Err(Error::PersistenceFailure),
        }
    }
}

} // verus!
