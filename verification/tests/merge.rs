use sbd_gen::doc::{merge_all, Document, ScalarVal};
use sbd_gen::model::StringOrVecString;

fn s(text: &str) -> Document {
    Document::scalar(ScalarVal::Str(text.to_owned()))
}

fn n(value: i64) -> Document {
    Document::scalar(ScalarVal::Int(value))
}

fn m(pairs: Vec<(&str, Document)>) -> Document {
    Document::mapping_of(pairs.into_iter().map(|(k, v)| (k.to_owned(), v)).collect())
}

fn l(items: Vec<Document>) -> Document {
    Document::list(items)
}

#[test]
fn test_merge_scalar_override() {
    let a = m(vec![("a", n(1)), ("b", n(2))]);
    let b = m(vec![("a", n(3))]);
    let merged = a.merge(b).unwrap();
    assert_eq!(merged, m(vec![("a", n(3)), ("b", n(2))]));
}

#[test]
fn test_merge_lists_concatenate() {
    let a = m(vec![("xs", l(vec![n(1), n(2)]))]);
    let b = m(vec![("xs", l(vec![n(3)]))]);
    let merged = a.merge(b).unwrap();
    assert_eq!(merged, m(vec![("xs", l(vec![n(1), n(2), n(3)]))]));
}

#[test]
fn test_merge_mappings_recursive() {
    let a = m(vec![("sub", m(vec![("x", n(1)), ("y", n(2))])), ("top", s("keep"))]);
    let b = m(vec![("sub", m(vec![("y", n(9)), ("z", n(3))]))]);
    let merged = a.merge(b).unwrap();
    assert_eq!(
        merged,
        m(vec![
            ("sub", m(vec![("x", n(1)), ("y", n(9)), ("z", n(3))])),
            ("top", s("keep")),
        ])
    );
}

#[test]
fn test_merge_shape_mismatch_is_error() {
    let a = m(vec![("k", s("scalar"))]);
    let b = m(vec![("k", m(vec![("inner", n(1))]))]);
    let err = a.merge(b).unwrap_err();
    assert_eq!(err.path, "k");
}

#[test]
fn test_merge_associative_in_order() {
    // Merging [A, B, C] in one pass equals merging [A, B] and then merging
    // the result with C.
    let build_a = || m(vec![("x", n(1)), ("list", l(vec![s("a")]))]);
    let build_b = || m(vec![("x", n(2)), ("y", n(5))]);
    let build_c = || m(vec![("list", l(vec![s("b")])), ("y", n(7))]);
    let all = merge_all(vec![build_a(), build_b(), build_c()]).unwrap();
    let two = merge_all(vec![build_a(), build_b()]).unwrap();
    let stepwise = two.merge(build_c()).unwrap();
    assert_eq!(all, stepwise);
}

#[test]
fn test_merge_all_empty_is_empty_mapping() {
    let merged = merge_all(Vec::new()).unwrap();
    assert_eq!(merged, m(vec![]));
}

#[test]
fn test_mapping_duplicate_key_overrides() {
    let d = Document::mapping_of(vec![
        ("k".to_owned(), n(1)),
        ("k".to_owned(), n(2)),
    ]);
    assert_eq!(d, m(vec![("k", n(2))]));
}

#[test]
fn test_mapping_keys_sort() {
    let d = m(vec![("zeta", n(1)), ("alpha", n(2))]);
    let e = m(vec![("alpha", n(2)), ("zeta", n(1))]);
    assert_eq!(d, e);
}

#[test]
fn test_string_or_vec_string_push() {
    let mut v = StringOrVecString::String("one".to_owned());
    v.push("two".to_owned());
    assert_eq!(
        v,
        StringOrVecString::VecString(vec!["one".to_owned(), "two".to_owned()])
    );
    v.push("three".to_owned());
    assert_eq!(
        v,
        StringOrVecString::VecString(vec![
            "one".to_owned(),
            "two".to_owned(),
            "three".to_owned(),
        ])
    );
}
