use std::collections::HashMap;
use tinyvector::collection::Embedding;
use tinyvector::db::{Db, Error};
use tinyvector::similarity::Distance;
use tinyvector::strmap::StringMap;

fn embedding(id: &str, v: &[f32], pairs: Option<&[(&str, &str)]>) -> Embedding {
    Embedding {
        id: id.to_string(),
        vector: v.iter().map(|x| x.to_bits()).collect(),
        metadata: pairs.map(|ps| {
            let mut m = StringMap::new();
            for (k, v) in ps {
                m.insert(k.to_string(), v.to_string());
            }
            m
        }),
    }
}

fn put(db: &mut Db, name: &str, e: Embedding) -> Result<(), Error> {
    let unit = e.vector.clone();
    db.insert_into_collection(name, e, unit)
}

fn populated() -> Db {
    let mut db = Db::new();
    db.create_collection("docs".to_string(), 3, Distance::Euclidean).unwrap();
    db.create_collection("images".to_string(), 2, Distance::Cosine).unwrap();
    db.create_collection("empty".to_string(), 7, Distance::DotProduct).unwrap();
    put(&mut db, "docs", embedding("a", &[1.0, 0.0, 0.0], Some(&[("lang", "en")])))
        .unwrap();
    put(&mut db, "docs", embedding("b", &[0.0, 1.0, 0.0], None)).unwrap();
    put(&mut db, "images", embedding("x", &[0.6, 0.8], Some(&[("w", "640"), ("h", "480")])))
        .unwrap();
    db
}

fn same_store(a: &Db, b: &Db) {
    assert_eq!(a.list_collections(), b.list_collections());
    for name in a.list_collections() {
        let x = a.get_collection(&name).unwrap();
        let y = b.get_collection(&name).unwrap();
        assert_eq!(x.dimension(), y.dimension());
        assert_eq!(x.distance(), y.distance());
        assert_eq!(x.list_ids(), y.list_ids());
        for id in x.list_ids() {
            let e = x.get_by_id(&id).unwrap();
            let f = y.get_by_id(&id).unwrap();
            assert_eq!(e.vector, f.vector);
            assert_eq!(
                e.metadata.as_ref().map(|m| m.to_pairs()),
                f.metadata.as_ref().map(|m| m.to_pairs())
            );
        }
    }
}

#[test]
fn collections_are_created_once_and_deleted_once() {
    let mut db = Db::new();
    assert_eq!(db.list_collections(), Vec::<String>::new());
    assert_eq!(db.create_collection("docs".to_string(), 3, Distance::Euclidean), Ok(()));
    assert_eq!(
        db.create_collection("docs".to_string(), 5, Distance::Cosine),
        Err(Error::UniqueViolation)
    );
    let c = db.get_collection("docs").unwrap();
    assert_eq!(c.dimension(), 3);
    assert_eq!(c.distance(), Distance::Euclidean);
    assert_eq!(c.len(), 0);
    assert!(db.get_collection("other").is_none());
    assert_eq!(db.create_collection("other".to_string(), 1, Distance::DotProduct), Ok(()));
    assert_eq!(db.list_collections(), vec!["docs".to_string(), "other".to_string()]);
    assert_eq!(db.delete_collection("docs"), Ok(()));
    assert_eq!(db.delete_collection("docs"), Err(Error::NotFound));
    assert_eq!(db.list_collections(), vec!["other".to_string()]);
}

#[test]
fn the_store_keeps_the_unit_vector_under_cosine() {
    let mut db = Db::new();
    db.create_collection("c".to_string(), 2, Distance::Cosine).unwrap();
    db.create_collection("e".to_string(), 2, Distance::Euclidean).unwrap();
    let unit = vec![0.6f32.to_bits(), 0.8f32.to_bits()];
    assert_eq!(
        db.insert_into_collection("c", embedding("x", &[3.0, 4.0], None), unit.clone()),
        Ok(())
    );
    assert_eq!(
        db.insert_into_collection("e", embedding("x", &[3.0, 4.0], None), unit.clone()),
        Ok(())
    );
    assert_eq!(db.get_collection("c").unwrap().get_by_id("x").unwrap().vector, unit);
    assert_eq!(
        db.get_collection("e").unwrap().get_by_id("x").unwrap().vector,
        vec![3.0f32.to_bits(), 4.0f32.to_bits()]
    );
    assert_eq!(
        db.insert_into_collection("c", embedding("z", &[0.0, 0.0], None), vec![0, 0]),
        Ok(())
    );
    assert_eq!(db.get_collection("c").unwrap().get_by_id("z").unwrap().vector, vec![0, 0]);
    assert_eq!(
        db.insert_into_collection("c", embedding("y", &[3.0, 4.0], None), vec![0]),
        Err(Error::DimensionMismatch)
    );
}

#[test]
fn insert_goes_through_the_store() {
    let mut db = Db::new();
    db.create_collection("docs".to_string(), 2, Distance::Euclidean).unwrap();
    assert_eq!(
        put(&mut db, "none", embedding("a", &[1.0, 2.0], None)),
        Err(Error::NotFound)
    );
    assert_eq!(put(&mut db, "docs", embedding("a", &[1.0, 2.0], None)), Ok(()));
    assert_eq!(
        put(&mut db, "docs", embedding("a", &[3.0, 4.0], None)),
        Err(Error::UniqueViolation)
    );
    assert_eq!(
        put(&mut db, "docs", embedding("b", &[3.0], None)),
        Err(Error::DimensionMismatch)
    );
    let c = db.get_collection("docs").unwrap();
    assert_eq!(c.list_ids(), vec!["a".to_string()]);
    assert_eq!(c.get_by_id("a").unwrap().vector, vec![1.0f32.to_bits(), 2.0f32.to_bits()]);
}

#[test]
fn deletes_go_through_the_store() {
    let mut db = populated();
    assert_eq!(db.delete_by_id("none", "a"), Err(Error::NotFound));
    assert_eq!(db.delete_by_id("docs", "zz"), Ok(false));
    assert_eq!(db.delete_by_id("docs", "b"), Ok(true));
    assert_eq!(db.get_collection("docs").unwrap().list_ids(), vec!["a".to_string()]);
    let mut group = StringMap::new();
    group.insert("lang".to_string(), "en".to_string());
    assert_eq!(db.delete_by_filter("none", &[]), Err(Error::NotFound));
    assert_eq!(db.delete_by_filter("images", &[group.clone()]), Ok(0));
    assert_eq!(db.delete_by_filter("docs", &[group]), Ok(1));
    assert_eq!(db.get_collection("docs").unwrap().len(), 0);
    assert_eq!(db.get_collection("images").unwrap().len(), 1);
}

#[test]
fn an_empty_store_survives_the_round_trip() {
    let db = Db::new();
    let bytes = db.to_bytes().unwrap();
    assert_eq!(bytes, vec![0u8; 8]);
    let back = Db::from_bytes(&bytes).unwrap();
    assert_eq!(back.list_collections(), Vec::<String>::new());
}

#[test]
fn a_store_of_one_collection_survives_the_round_trip() {
    let mut db = Db::new();
    db.create_collection("a".to_string(), 1, Distance::Cosine).unwrap();
    let bytes = db.to_bytes().unwrap();
    let mut expected: Vec<u8> = Vec::new();
    expected.extend_from_slice(&1u64.to_le_bytes());
    expected.extend_from_slice(&1u64.to_le_bytes());
    expected.push(b'a');
    expected.extend_from_slice(&1u64.to_le_bytes());
    expected.extend_from_slice(&1u32.to_le_bytes());
    expected.extend_from_slice(&0u64.to_le_bytes());
    assert_eq!(bytes, expected);
    let back = Db::from_bytes(&bytes).unwrap();
    same_store(&db, &back);
}

#[test]
fn a_store_of_many_collections_survives_the_round_trip() {
    let db = populated();
    let bytes = db.to_bytes().unwrap();
    let back = Db::from_bytes(&bytes).unwrap();
    same_store(&db, &back);
    assert_eq!(back.to_bytes().unwrap(), bytes);
    let again = Db::from_snapshot(&db.to_snapshot()).unwrap();
    same_store(&db, &again);
}

#[test]
fn the_bytes_are_those_of_a_map_of_records() {
    let mut db = Db::new();
    db.create_collection("docs".to_string(), 2, Distance::DotProduct).unwrap();
    put(&mut db, "docs", embedding("a", &[1.5, -2.0], Some(&[("lang", "en")])))
        .unwrap();
    put(&mut db, "docs", embedding("b", &[0.0, 4.0], None)).unwrap();

    let mut lang: HashMap<String, String> = HashMap::new();
    lang.insert("lang".to_string(), "en".to_string());
    let mut records: HashMap<String, (usize, u32, Vec<(String, Vec<f32>, Option<HashMap<String, String>>)>)> =
        HashMap::new();
    records.insert(
        "docs".to_string(),
        (
            2,
            2,
            vec![
                ("a".to_string(), vec![1.5, -2.0], Some(lang)),
                ("b".to_string(), vec![0.0, 4.0], None),
            ],
        ),
    );
    assert_eq!(db.to_bytes().unwrap(), bincode::serialize(&records).unwrap());
}

#[test]
fn bytes_that_hold_no_store_are_refused() {
    assert!(matches!(Db::from_bytes(&[]), Err(Error::PersistenceFailure)));
    assert!(matches!(Db::from_bytes(&[1, 2, 3]), Err(Error::PersistenceFailure)));
    let mut truncated = populated().to_bytes().unwrap();
    truncated.truncate(truncated.len() - 3);
    assert!(matches!(Db::from_bytes(&truncated), Err(Error::PersistenceFailure)));
}

#[test]
fn stored_forms_that_break_a_rule_are_refused() {
    let good = vec![("c".to_string(), (2u64, 0u32, vec![("a".to_string(), vec![0u32, 0u32], None)]))];
    assert!(Db::from_snapshot(&good).is_ok());

    let twice = vec![good[0].clone(), good[0].clone()];
    assert!(matches!(Db::from_snapshot(&twice), Err(Error::PersistenceFailure)));

    let tag = vec![("c".to_string(), (2u64, 3u32, vec![]))];
    assert!(matches!(Db::from_snapshot(&tag), Err(Error::PersistenceFailure)));

    let zero = vec![("c".to_string(), (0u64, 0u32, vec![]))];
    assert!(matches!(Db::from_snapshot(&zero), Err(Error::PersistenceFailure)));

    let length = vec![("c".to_string(), (2u64, 0u32, vec![("a".to_string(), vec![0u32], None)]))];
    assert!(matches!(Db::from_snapshot(&length), Err(Error::PersistenceFailure)));

    let ids = vec![(
        "c".to_string(),
        (
            1u64,
            0u32,
            vec![("a".to_string(), vec![0u32], None), ("a".to_string(), vec![1u32], None)],
        ),
    )];
    assert!(matches!(Db::from_snapshot(&ids), Err(Error::PersistenceFailure)));

    let keys = vec![(
        "c".to_string(),
        (
            1u64,
            0u32,
            vec![(
                "a".to_string(),
                vec![0u32],
                Some(vec![
                    ("k".to_string(), "1".to_string()),
                    ("k".to_string(), "2".to_string()),
                ]),
            )],
        ),
    )];
    assert!(matches!(Db::from_snapshot(&keys), Err(Error::PersistenceFailure)));
}

#[test]
fn a_collection_has_its_stored_form() {
    let db = populated();
    let c = db.get_collection("images").unwrap();
    let stored = c.to_stored();
    assert_eq!(stored.0, 2);
    assert_eq!(stored.1, 1);
    assert_eq!(
        stored.2,
        vec![(
            "x".to_string(),
            vec![0.6f32.to_bits(), 0.8f32.to_bits()],
            Some(vec![
                ("w".to_string(), "640".to_string()),
                ("h".to_string(), "480".to_string()),
            ]),
        )]
    );
    let back = tinyvector::collection::Collection::from_stored(&stored).unwrap();
    assert_eq!(back.dimension(), 2);
    assert_eq!(back.distance(), Distance::Cosine);
    assert_eq!(back.list_ids(), vec!["x".to_string()]);
    assert_eq!(back.to_stored(), stored);

    let e = c.get_by_id("x").unwrap();
    let one = e.to_stored();
    assert_eq!(one, stored.2[0]);
    let again = Embedding::from_stored(&one).unwrap();
    assert_eq!(again.id, "x");
    assert_eq!(again.vector, e.vector);
    assert_eq!(tinyvector::collection::copy_vector(&e.vector), e.vector);

    let repeated = (
        "y".to_string(),
        vec![0u32, 0u32],
        Some(vec![("k".to_string(), "1".to_string()), ("k".to_string(), "1".to_string())]),
    );
    assert!(Embedding::from_stored(&repeated).is_none());
}
