use tinyvector::search::{
    and, eq, get_equality_comp_op_fn, get_logical_comp_op_fn, gt, gte, lt, lte, ne, or, parse,
    parse_comparator, parse_logic, parse_logic_helper, Comparator, EqualityCompOp, Error, Expr,
    Filter, Logic, LogicalCompOp,
};
use tinyvector::strmap::StringMap;
use tinyvector::text::str_lt;

fn text(s: &str) -> Expr {
    Expr::Text(s.to_string())
}

fn object(members: Vec<(&str, Expr)>) -> Expr {
    Expr::Object(members.into_iter().map(|(k, v)| (k.to_string(), v)).collect())
}

fn comparison(name: &str, field: &str, value: &str) -> Expr {
    object(vec![(name, object(vec![(field, text(value))]))])
}

fn comparator(field: &str, op: EqualityCompOp, value: &str) -> Filter {
    Filter::Comparator(Comparator {
        metadata_field: field.to_string(),
        op,
        comp_value: value.to_string(),
    })
}

fn metadata(ps: &[(&str, &str)]) -> StringMap {
    let mut m = StringMap::new();
    for (k, v) in ps {
        m.insert(k.to_string(), v.to_string());
    }
    m
}

#[test]
fn strings_are_ordered_by_their_bytes() {
    let words = ["", "a", "ab", "abc", "b", "B", "é", "z", "zz", "日本", "~"];
    for a in words {
        for b in words {
            assert_eq!(str_lt(a, b), a < b);
            assert_eq!(lt(a, b), a < b);
            assert_eq!(lte(a, b), a <= b);
            assert_eq!(gt(a, b), a > b);
            assert_eq!(gte(a, b), a >= b);
            assert_eq!(eq(a, b), a == b);
            assert_eq!(ne(a, b), a != b);
        }
    }
}

#[test]
fn operators_give_their_functions() {
    let f = get_equality_comp_op_fn(EqualityCompOp::Gt);
    assert!(f("b", "a"));
    assert!(!f("a", "a"));
    let f = get_equality_comp_op_fn(EqualityCompOp::Lte);
    assert!(f("a", "a"));
    assert!(!f("b", "a"));
    let f = get_equality_comp_op_fn(EqualityCompOp::Ne);
    assert!(f("b", "a"));
    let f = get_equality_comp_op_fn(EqualityCompOp::Eq);
    assert!(!f("b", "a"));
    let f = get_equality_comp_op_fn(EqualityCompOp::Lt);
    assert!(f("a", "b"));
    let f = get_equality_comp_op_fn(EqualityCompOp::Gte);
    assert!(f("b", "b"));

    assert!(and(true, true));
    assert!(!and(true, false));
    assert!(or(false, true));
    assert!(!or(false, false));
    let f = get_logical_comp_op_fn(LogicalCompOp::And);
    assert!(!f(false, true));
    let f = get_logical_comp_op_fn(LogicalCompOp::Or);
    assert!(f(false, true));
}

#[test]
fn a_comparison_is_read_from_its_source() {
    assert_eq!(parse(&comparison("$eq", "lang", "en")), Ok(comparator("lang", EqualityCompOp::Eq, "en")));
    assert_eq!(parse(&comparison("$ne", "lang", "en")), Ok(comparator("lang", EqualityCompOp::Ne, "en")));
    assert_eq!(parse(&comparison("$gt", "n", "5")), Ok(comparator("n", EqualityCompOp::Gt, "5")));
    assert_eq!(parse(&comparison("$gte", "n", "5")), Ok(comparator("n", EqualityCompOp::Gte, "5")));
    assert_eq!(parse(&comparison("$lt", "n", "5")), Ok(comparator("n", EqualityCompOp::Lt, "5")));
    assert_eq!(parse(&comparison("$lte", "n", "5")), Ok(comparator("n", EqualityCompOp::Lte, "5")));
}

#[test]
fn joined_filters_are_read_from_their_source() {
    let source = object(vec![(
        "$and",
        object(vec![
            ("rhs", comparison("$lt", "year", "2000")),
            ("lhs", object(vec![(
                "$or",
                object(vec![
                    ("lhs", comparison("$eq", "lang", "en")),
                    ("rhs", comparison("$eq", "lang", "fr")),
                ]),
            )])),
        ]),
    )]);
    let expected = Filter::Logic(Logic {
        lhs: Box::new(Filter::Logic(Logic {
            lhs: Box::new(comparator("lang", EqualityCompOp::Eq, "en")),
            op: LogicalCompOp::Or,
            rhs: Box::new(comparator("lang", EqualityCompOp::Eq, "fr")),
        })),
        op: LogicalCompOp::And,
        rhs: Box::new(comparator("year", EqualityCompOp::Lt, "2000")),
    });
    let filter = parse(&source).unwrap();
    assert_eq!(filter, expected);

    assert!(filter.compare(&metadata(&[("lang", "fr"), ("year", "1999")])));
    assert!(!filter.compare(&metadata(&[("lang", "fr"), ("year", "2001")])));
    assert!(!filter.compare(&metadata(&[("lang", "de"), ("year", "1999")])));
    assert!(!filter.compare(&metadata(&[("year", "1999")])));
}

#[test]
fn sources_of_another_form_are_refused() {
    assert_eq!(parse(&text("$eq")), Err(Error::InvalidFilter));
    assert_eq!(parse(&object(vec![])), Err(Error::InvalidFilter));
    assert_eq!(
        parse(&object(vec![
            ("$eq", object(vec![("a", text("1"))])),
            ("$ne", object(vec![("a", text("1"))])),
        ])),
        Err(Error::InvalidFilter)
    );
    assert_eq!(parse(&comparison("$like", "a", "1")), Err(Error::InvalidFilter));
    assert_eq!(parse(&comparison("eq", "a", "1")), Err(Error::InvalidFilter));
    assert_eq!(parse(&object(vec![("$eq", text("a"))])), Err(Error::InvalidFilter));
    assert_eq!(parse(&object(vec![("$eq", object(vec![]))])), Err(Error::InvalidFilter));
    assert_eq!(
        parse(&object(vec![("$eq", object(vec![("a", text("1")), ("b", text("2"))]))])),
        Err(Error::InvalidFilter)
    );
    assert_eq!(
        parse(&object(vec![("$eq", object(vec![("a", object(vec![]))]))])),
        Err(Error::InvalidFilter)
    );
    assert_eq!(parse(&object(vec![("$and", text("x"))])), Err(Error::InvalidFilter));
    assert_eq!(
        parse(&object(vec![("$and", object(vec![("lhs", comparison("$eq", "a", "1"))]))])),
        Err(Error::InvalidFilter)
    );
    assert_eq!(
        parse(&object(vec![(
            "$or",
            object(vec![("lhs", comparison("$eq", "a", "1")), ("rhs", text("b"))]),
        )])),
        Err(Error::InvalidFilter)
    );
}

#[test]
fn the_parts_of_a_source_are_read_alone() {
    let sides = object(vec![
        ("lhs", comparison("$eq", "a", "1")),
        ("rhs", comparison("$ne", "b", "2")),
        ("lhs", comparison("$eq", "z", "9")),
    ]);
    assert_eq!(parse_logic_helper(&sides, "lhs"), Ok(comparator("a", EqualityCompOp::Eq, "1")));
    assert_eq!(parse_logic_helper(&sides, "rhs"), Ok(comparator("b", EqualityCompOp::Ne, "2")));
    assert_eq!(parse_logic_helper(&sides, "mid"), Err(Error::InvalidFilter));
    assert_eq!(parse_logic_helper(&text("lhs"), "lhs"), Err(Error::InvalidFilter));
    assert_eq!(
        parse_logic(&sides, LogicalCompOp::Or),
        Ok(Filter::Logic(Logic {
            lhs: Box::new(comparator("a", EqualityCompOp::Eq, "1")),
            op: LogicalCompOp::Or,
            rhs: Box::new(comparator("b", EqualityCompOp::Ne, "2")),
        }))
    );
    assert_eq!(
        parse_comparator(&object(vec![("f", text("v"))]), EqualityCompOp::Gte),
        Ok(comparator("f", EqualityCompOp::Gte, "v"))
    );
    assert_eq!(parse_comparator(&text("v"), EqualityCompOp::Gte), Err(Error::InvalidFilter));
}

#[test]
fn a_comparison_reads_an_absent_field_as_empty() {
    let m = metadata(&[("lang", "en")]);
    let c = Comparator {
        metadata_field: "region".to_string(),
        op: EqualityCompOp::Eq,
        comp_value: "".to_string(),
    };
    assert!(c.compare(&m));
    let c = Comparator {
        metadata_field: "region".to_string(),
        op: EqualityCompOp::Lt,
        comp_value: "a".to_string(),
    };
    assert!(c.compare(&m));
    let c = Comparator {
        metadata_field: "lang".to_string(),
        op: EqualityCompOp::Gt,
        comp_value: "de".to_string(),
    };
    assert!(c.compare(&m));
    let l = Logic {
        lhs: Box::new(comparator("lang", EqualityCompOp::Eq, "en")),
        op: LogicalCompOp::And,
        rhs: Box::new(comparator("lang", EqualityCompOp::Ne, "en")),
    };
    assert!(!l.compare(&m));
}
