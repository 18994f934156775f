use tinyvector::db::Error;
use tinyvector::errors::{
    HTTPError, BAD_REQUEST, CONFLICT, NOT_FOUND, UNPROCESSABLE_ENTITY,
};
use tinyvector::snapshot::{distance_from_tag, distance_tag};
use tinyvector::similarity::Distance;
use tinyvector::system::{root, AppVersion};

#[test]
fn a_new_error_is_unprocessable() {
    let e = HTTPError::new("broken");
    assert_eq!(e.detail, "broken");
    assert_eq!(e.status_code, 422);
    let e = e.with_status(NOT_FOUND);
    assert_eq!(e.detail, "broken");
    assert_eq!(e.status_code, 404);
}

#[test]
fn failures_get_their_answers() {
    let e = HTTPError::on_create_collection(Error::UniqueViolation);
    assert_eq!((e.status_code, e.detail.as_str()), (CONFLICT, "Collection already exists"));
    let e = HTTPError::on_create_collection(Error::NotFound);
    assert_eq!((e.status_code, e.detail.as_str()), (UNPROCESSABLE_ENTITY, "Couldn't create collection"));
    let e = HTTPError::on_delete_collection(Error::NotFound);
    assert_eq!((e.status_code, e.detail.as_str()), (NOT_FOUND, "Collection not found"));
    let e = HTTPError::on_delete_collection(Error::UniqueViolation);
    assert_eq!((e.status_code, e.detail.as_str()), (UNPROCESSABLE_ENTITY, "Couldn't delete collection"));
    let e = HTTPError::on_insert(Error::NotFound);
    assert_eq!((e.status_code, e.detail.as_str()), (NOT_FOUND, "Collection not found"));
    let e = HTTPError::on_insert(Error::UniqueViolation);
    assert_eq!((e.status_code, e.detail.as_str()), (CONFLICT, "Vector already exists"));
    let e = HTTPError::on_insert(Error::DimensionMismatch);
    assert_eq!(
        (e.status_code, e.detail.as_str()),
        (BAD_REQUEST, "The provided vector has the wrong dimension")
    );
    let e = HTTPError::on_query(Error::DimensionMismatch);
    assert_eq!((e.status_code, e.detail.as_str()), (BAD_REQUEST, "Query dimension mismatch"));
    let e = HTTPError::on_query(Error::NotFound);
    assert_eq!((e.status_code, e.detail.as_str()), (NOT_FOUND, "Collection not found"));
    let e = HTTPError::embedding_not_found();
    assert_eq!((e.status_code, e.detail.as_str()), (NOT_FOUND, "Embedding not found"));
    let e = HTTPError::invalid_dimension();
    assert_eq!((e.status_code, e.detail.as_str()), (BAD_REQUEST, "The dimension must be positive"));
}

#[test]
fn errors_say_what_they_are() {
    assert_eq!(Error::UniqueViolation.message(), "Collection already exists");
    assert_eq!(Error::NotFound.message(), "Collection doesn't exist");
    assert_eq!(
        Error::DimensionMismatch.message(),
        "The dimension of the vector doesn't match the dimension of the collection"
    );
    assert_eq!(Error::PersistenceFailure.message(), "The store could not be written or read");
}

#[test]
fn the_root_names_the_documentation() {
    let r = root(AppVersion {
        semver: "1.2.3".to_string(),
        rev: Some("abc".to_string()),
        compile_time: "today".to_string(),
    });
    assert_eq!(r.docs_url, "/docs");
    assert_eq!(r.openapi_url, "/openapi.json");
    assert_eq!(r.version.semver, "1.2.3");
    assert_eq!(r.version.rev, Some("abc".to_string()));
    assert_eq!(r.version.compile_time, "today");
}

#[test]
fn metrics_have_their_tags() {
    assert_eq!(distance_tag(Distance::Euclidean), 0);
    assert_eq!(distance_tag(Distance::Cosine), 1);
    assert_eq!(distance_tag(Distance::DotProduct), 2);
    assert_eq!(distance_from_tag(0), Some(Distance::Euclidean));
    assert_eq!(distance_from_tag(1), Some(Distance::Cosine));
    assert_eq!(distance_from_tag(2), Some(Distance::DotProduct));
    assert_eq!(distance_from_tag(3), None);
}
