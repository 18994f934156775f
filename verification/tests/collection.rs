use tinyvector::collection::{Collection, Embedding};
use tinyvector::db::Error;
use tinyvector::similarity::Distance;
use tinyvector::strmap::StringMap;

fn bits(v: &[f32]) -> Vec<u32> {
    v.iter().map(|x| x.to_bits()).collect()
}

fn meta(pairs: &[(&str, &str)]) -> StringMap {
    let mut m = StringMap::new();
    for (k, v) in pairs {
        m.insert(k.to_string(), v.to_string());
    }
    m
}

fn sum_squares(v: &[f32]) -> f32 {
    v.iter().map(|x| x.powi(2)).sum()
}

fn euclidean(stored: &[u32], query: &[f32]) -> u32 {
    let query_squares = sum_squares(query);
    let mut cross = 0.0f32;
    let mut squares = 0.0f32;
    for (a, b) in query.iter().zip(stored) {
        let b = f32::from_bits(*b);
        cross += a * b;
        squares += b.powi(2);
    }
    2.0f32.mul_add(-cross, query_squares + squares).max(0.0).sqrt().to_bits()
}

fn dot(stored: &[u32], query: &[f32]) -> u32 {
    query.iter().zip(stored).fold(0.0f32, |acc, (x, y)| acc + x * f32::from_bits(*y)).to_bits()
}

fn normalize(v: &[f32]) -> Vec<f32> {
    let magnitude = sum_squares(v).sqrt();
    if magnitude < 1e-12 {
        v.to_vec()
    } else {
        v.iter().map(|x| x / magnitude).collect()
    }
}

fn insert_f32(c: &mut Collection, id: &str, v: &[f32], m: Option<StringMap>) -> Result<(), Error> {
    c.insert(id.to_string(), bits(v), bits(&normalize(v)), m)
}

fn scores(c: &Collection, query: &[f32]) -> Vec<u32> {
    c.embeddings()
        .iter()
        .map(|e| match c.distance() {
            Distance::Euclidean => euclidean(&e.vector, query),
            _ => dot(&e.vector, query),
        })
        .collect()
}

#[test]
fn euclidean_nearest_comes_first() {
    let mut c = Collection::new(3, Distance::Euclidean);
    assert_eq!(insert_f32(&mut c, "a", &[1.0, 0.0, 0.0], None), Ok(()));
    assert_eq!(insert_f32(&mut c, "b", &[0.0, 1.0, 0.0], None), Ok(()));
    let query = [1.0f32, 0.0, 0.0];
    let s = scores(&c, &query);

    let one = c.query_similarity(&bits(&query), 1, &[], &s).unwrap();
    assert_eq!(one.len(), 1);
    assert_eq!(one[0].embedding.id, "a");
    assert_eq!(f32::from_bits(one[0].score), 0.0);

    let two = c.query_similarity(&bits(&query), 2, &[], &s).unwrap();
    assert_eq!(two.len(), 2);
    assert_eq!(two[0].embedding.id, "a");
    assert_eq!(two[1].embedding.id, "b");
    assert_eq!(f32::from_bits(two[1].score), 2.0f32.sqrt());
}

#[test]
fn cosine_scores_against_unit_vectors() {
    let mut c = Collection::new(2, Distance::Cosine);
    assert_eq!(insert_f32(&mut c, "x", &[3.0, 4.0], None), Ok(()));
    let stored = c.get_by_id("x").unwrap();
    let held: Vec<f32> = stored.vector.iter().map(|b| f32::from_bits(*b)).collect();
    assert!((held[0] - 0.6).abs() < 1e-6);
    assert!((held[1] - 0.8).abs() < 1e-6);
    assert!((sum_squares(&held).sqrt() - 1.0).abs() < 1e-6);

    let query = [1.0f32, 0.0];
    let s = scores(&c, &query);
    let r = c.query_similarity(&bits(&query), 1, &[], &s).unwrap();
    assert_eq!(r.len(), 1);
    assert_eq!(r[0].embedding.id, "x");
    assert!((f32::from_bits(r[0].score) - 0.6).abs() < 1e-6);
}

#[test]
fn cosine_by_unit_vectors_equals_direct_cosine() {
    let a = [3.0f32, -4.0, 12.0];
    let b = [0.5f32, 2.0, -1.0];
    let direct = a.iter().zip(&b).map(|(x, y)| x * y).sum::<f32>()
        / (sum_squares(&a).sqrt() * sum_squares(&b).sqrt());
    let via_units = f32::from_bits(dot(&bits(&normalize(&a)), &normalize(&b)));
    assert!((direct - via_units).abs() < 1e-6);
}

#[test]
fn similarity_prefers_larger_scores() {
    let mut c = Collection::new(2, Distance::DotProduct);
    insert_f32(&mut c, "small", &[1.0, 0.0], None).unwrap();
    insert_f32(&mut c, "large", &[5.0, 0.0], None).unwrap();
    insert_f32(&mut c, "negative", &[-2.0, 0.0], None).unwrap();
    let query = [1.0f32, 0.0];
    let s = scores(&c, &query);
    let r = c.query_similarity(&bits(&query), 3, &[], &s).unwrap();
    let ids: Vec<&str> = r.iter().map(|x| x.embedding.id.as_str()).collect();
    assert_eq!(ids, vec!["large", "small", "negative"]);
    let values: Vec<f32> = r.iter().map(|x| f32::from_bits(x.score)).collect();
    assert_eq!(values, vec![5.0, 1.0, -2.0]);
}

#[test]
fn filters_are_groups_of_which_one_has_to_match() {
    let mut c = Collection::new(1, Distance::Euclidean);
    insert_f32(&mut c, "first", &[0.0], Some(meta(&[("lang", "en")]))).unwrap();
    insert_f32(&mut c, "second", &[1.0], Some(meta(&[("lang", "fr")]))).unwrap();

    let en = vec![meta(&[("lang", "en")])];
    let r = c.query_by_filter(&en, 10);
    assert_eq!(r.len(), 1);
    assert_eq!(r[0].id, "first");

    let either = vec![meta(&[("lang", "en")]), meta(&[("lang", "fr")])];
    let r = c.query_by_filter(&either, 10);
    let ids: Vec<&str> = r.iter().map(|e| e.id.as_str()).collect();
    assert_eq!(ids, vec!["first", "second"]);

    let both = vec![meta(&[("lang", "en"), ("region", "us")])];
    assert_eq!(c.query_by_filter(&both, 10).len(), 0);
}

#[test]
fn insert_then_get_returns_what_was_handed_in() {
    let mut c = Collection::new(3, Distance::Euclidean);
    let vector = bits(&[0.25, -1.5, 7.0]);
    let m = meta(&[("kind", "note"), ("lang", "en")]);
    assert_eq!(c.insert("n1".to_string(), vector.clone(), Vec::new(), Some(m)), Ok(()));
    let e = c.get_by_id("n1").unwrap();
    assert_eq!(e.id, "n1");
    assert_eq!(e.vector, vector);
    let held = e.metadata.as_ref().unwrap();
    assert_eq!(
        held.to_pairs(),
        vec![("kind".to_string(), "note".to_string()), ("lang".to_string(), "en".to_string())]
    );
    assert!(c.get_by_id("n2").is_none());
    assert_eq!(c.len(), 1);
    assert_eq!(c.dimension(), 3);
    assert_eq!(c.distance(), Distance::Euclidean);
}

#[test]
fn wrong_dimension_is_refused_and_changes_nothing() {
    let mut c = Collection::new(3, Distance::Euclidean);
    c.insert("a".to_string(), bits(&[1.0, 2.0, 3.0]), Vec::new(), None).unwrap();
    assert_eq!(c.insert("b".to_string(), bits(&[1.0, 2.0]), Vec::new(), None),
        Err(Error::DimensionMismatch)
    );
    assert_eq!(c.insert("c".to_string(), bits(&[]), Vec::new(), None),
        Err(Error::DimensionMismatch)
    );
    assert_eq!(
        c.insert("d".to_string(), bits(&[1.0, 2.0, 3.0, 4.0]), Vec::new(), None),
        Err(Error::DimensionMismatch)
    );
    assert_eq!(c.len(), 1);
    assert_eq!(c.list_ids(), vec!["a".to_string()]);
}

#[test]
fn duplicate_id_is_refused_and_leaves_the_first() {
    let mut c = Collection::new(2, Distance::Euclidean);
    c.insert("a".to_string(), bits(&[1.0, 2.0]), Vec::new(), Some(meta(&[("v", "1")]))).unwrap();
    assert_eq!(
        c.insert("a".to_string(), bits(&[9.0, 9.0]), Vec::new(), Some(meta(&[("v", "2")]))),
        Err(Error::UniqueViolation)
    );
    let e = c.get_by_id("a").unwrap();
    assert_eq!(e.vector, bits(&[1.0, 2.0]));
    assert_eq!(e.metadata.as_ref().unwrap().get("v"), Some(&"1".to_string()));
    assert_eq!(c.len(), 1);
}

#[test]
fn wrong_dimension_comes_before_a_duplicate_id() {
    let mut c = Collection::new(2, Distance::Euclidean);
    c.insert("a".to_string(), bits(&[1.0, 2.0]), Vec::new(), None).unwrap();
    assert_eq!(c.insert("a".to_string(), bits(&[1.0]), Vec::new(), None),
        Err(Error::DimensionMismatch)
    );
}

#[test]
fn query_returns_min_of_k_and_count_in_order_without_repeats() {
    let mut c = Collection::new(1, Distance::Euclidean);
    let values = [4.0f32, 1.0, 3.0, 9.0, 2.0, 7.0];
    for (i, v) in values.iter().enumerate() {
        insert_f32(&mut c, &format!("e{}", i), &[*v], None).unwrap();
    }
    let query = [0.0f32];
    let s = scores(&c, &query);
    for k in 0..9usize {
        let r = c.query_similarity(&bits(&query), k, &[], &s).unwrap();
        assert_eq!(r.len(), k.min(values.len()));
        let got: Vec<f32> = r.iter().map(|x| f32::from_bits(x.score)).collect();
        let mut sorted = values.to_vec();
        sorted.sort_by(|a, b| a.partial_cmp(b).unwrap());
        assert_eq!(got, sorted[..k.min(values.len())].to_vec());
        let mut ids: Vec<&str> = r.iter().map(|x| x.embedding.id.as_str()).collect();
        ids.sort();
        ids.dedup();
        assert_eq!(ids.len(), r.len());
    }
}

#[test]
fn query_of_wrong_dimension_is_refused() {
    let mut c = Collection::new(2, Distance::Euclidean);
    insert_f32(&mut c, "a", &[1.0, 2.0], None).unwrap();
    let r = c.query_similarity(&bits(&[1.0]), 1, &[], &[0]);
    assert!(matches!(r, Err(Error::DimensionMismatch)));
}

#[test]
fn query_ranks_only_what_passes_the_filter() {
    let mut c = Collection::new(1, Distance::Euclidean);
    insert_f32(&mut c, "near", &[1.0], Some(meta(&[("lang", "fr")]))).unwrap();
    insert_f32(&mut c, "far", &[5.0], Some(meta(&[("lang", "en")]))).unwrap();
    insert_f32(&mut c, "bare", &[0.5], None).unwrap();
    let query = [0.0f32];
    let s = scores(&c, &query);
    let en = vec![meta(&[("lang", "en")])];
    let r = c.get_by_metadata_and_similarity(&en, &s, 5);
    assert_eq!(r.len(), 1);
    assert_eq!(r[0].embedding.id, "far");
    assert_eq!(f32::from_bits(r[0].score), 5.0);
}

#[test]
fn candidates_are_the_embeddings_that_pass_with_their_scores() {
    let mut c = Collection::new(1, Distance::Euclidean);
    insert_f32(&mut c, "a", &[3.0], Some(meta(&[("lang", "en")]))).unwrap();
    insert_f32(&mut c, "b", &[1.0], None).unwrap();
    insert_f32(&mut c, "c", &[2.0], Some(meta(&[("lang", "en")]))).unwrap();
    let en = vec![meta(&[("lang", "en")])];
    let found = c.candidates(&en, &[30, 10, 20]);
    let pairs: Vec<(u32, usize)> = found.iter().map(|x| (x.score, x.index)).collect();
    assert_eq!(pairs, vec![(30, 0), (20, 2)]);
    let all = c.candidates(&[], &[30, 10, 20]);
    assert_eq!(all.len(), 3);
}

#[test]
fn a_collection_keeps_the_unit_vector_only_under_cosine() {
    let raw = bits(&[3.0, 4.0]);
    let unit = bits(&[0.6, 0.8]);
    for (distance, kept) in [
        (Distance::Euclidean, &raw),
        (Distance::DotProduct, &raw),
        (Distance::Cosine, &unit),
    ] {
        let mut c = Collection::new(2, distance);
        assert_eq!(c.insert("x".to_string(), raw.clone(), unit.clone(), None), Ok(()));
        assert_eq!(&c.get_by_id("x").unwrap().vector, kept);
    }
    let mut c = Collection::new(2, Distance::Cosine);
    assert_eq!(
        c.insert("x".to_string(), raw.clone(), bits(&[1.0]), None),
        Err(Error::DimensionMismatch)
    );
    assert_eq!(c.insert("x".to_string(), bits(&[1.0]), unit, None), Err(Error::DimensionMismatch));
    assert_eq!(c.len(), 0);
    let zero = bits(&[0.0, 0.0]);
    assert_eq!(c.insert("z".to_string(), zero.clone(), bits(&normalize(&[0.0, 0.0])), None), Ok(()));
    assert_eq!(c.get_by_id("z").unwrap().vector, zero);
}

#[test]
fn empty_filter_matches_all_and_absent_key_matches_none() {
    let mut c = Collection::new(1, Distance::Euclidean);
    insert_f32(&mut c, "a", &[1.0], Some(meta(&[("lang", "en")]))).unwrap();
    insert_f32(&mut c, "b", &[2.0], None).unwrap();
    insert_f32(&mut c, "c", &[3.0], Some(meta(&[]))).unwrap();
    assert_eq!(c.query_by_filter(&[], 10).len(), 3);
    let absent = vec![meta(&[("colour", "red")])];
    assert_eq!(c.query_by_filter(&absent, 10).len(), 0);
    let empty_group = vec![meta(&[])];
    let r = c.query_by_filter(&empty_group, 10);
    let ids: Vec<&str> = r.iter().map(|e| e.id.as_str()).collect();
    assert_eq!(ids, vec!["a", "c"]);
}

#[test]
fn query_by_filter_stops_at_k() {
    let mut c = Collection::new(1, Distance::Euclidean);
    for i in 0..5 {
        insert_f32(&mut c, &format!("e{}", i), &[i as f32], None).unwrap();
    }
    assert_eq!(c.query_by_filter(&[], 0).len(), 0);
    let r = c.query_by_filter(&[], 2);
    let ids: Vec<&str> = r.iter().map(|e| e.id.as_str()).collect();
    assert_eq!(ids, vec!["e0", "e1"]);
}

#[test]
fn delete_by_filter_removes_what_query_by_filter_returns() {
    let mut c = Collection::new(1, Distance::Euclidean);
    insert_f32(&mut c, "a", &[1.0], Some(meta(&[("lang", "en")]))).unwrap();
    insert_f32(&mut c, "b", &[2.0], Some(meta(&[("lang", "fr")]))).unwrap();
    insert_f32(&mut c, "c", &[3.0], Some(meta(&[("lang", "en"), ("x", "y")]))).unwrap();
    insert_f32(&mut c, "d", &[4.0], None).unwrap();
    let en = vec![meta(&[("lang", "en")])];
    let returned: Vec<String> =
        c.query_by_filter(&en, usize::MAX).iter().map(|e| e.id.clone()).collect();
    assert_eq!(returned, vec!["a".to_string(), "c".to_string()]);
    assert_eq!(c.delete_by_filter(&en), returned.len());
    assert_eq!(c.list_ids(), vec!["b".to_string(), "d".to_string()]);
    assert_eq!(c.delete_by_filter(&en), 0);
    assert_eq!(c.delete_by_filter(&[]), 2);
    assert_eq!(c.len(), 0);
}

#[test]
fn delete_by_id_says_whether_it_removed() {
    let mut c = Collection::new(1, Distance::Euclidean);
    insert_f32(&mut c, "a", &[1.0], None).unwrap();
    insert_f32(&mut c, "b", &[2.0], None).unwrap();
    insert_f32(&mut c, "c", &[3.0], None).unwrap();
    assert!(c.delete_by_id("b"));
    assert!(!c.delete_by_id("b"));
    assert!(!c.delete_by_id("zz"));
    assert_eq!(c.list_ids(), vec!["a".to_string(), "c".to_string()]);
    assert_eq!(insert_f32(&mut c, "b", &[5.0], None), Ok(()));
    assert_eq!(c.list_ids(), vec!["a".to_string(), "c".to_string(), "b".to_string()]);
}

#[test]
fn a_clone_of_an_embedding_holds_the_same() {
    let e = Embedding {
        id: "a".to_string(),
        vector: bits(&[1.0, 2.0]),
        metadata: Some(meta(&[("k", "v")])),
    };
    let c = e.clone();
    assert_eq!(c.id, "a");
    assert_eq!(c.vector, bits(&[1.0, 2.0]));
    assert_eq!(c.metadata.unwrap().to_pairs(), vec![("k".to_string(), "v".to_string())]);
}
