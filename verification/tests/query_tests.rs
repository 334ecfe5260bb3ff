use sync_http::query::{KeyValue, Query};

#[test]
fn query_parses_plus_separated_pairs_in_order() {
    let q = Query::parse("?a=1+b=2".into());
    assert_eq!(q.queries.len(), 2);
    assert_eq!(q.queries[0].key, "a");
    assert_eq!(q.queries[0].value, "1");
    assert_eq!(q.queries[1].key, "b");
    assert_eq!(q.queries[1].value, "2");
}

#[test]
fn query_entry_without_equals_gets_empty_value() {
    let q = Query::parse("a".into());
    assert_eq!(q.queries.len(), 1);
    assert_eq!(q.queries[0].key, "a");
    assert_eq!(q.queries[0].value, "");
}

#[test]
fn query_malformed_entry_is_dropped() {
    let q = Query::parse("a=1=2".into());
    assert_eq!(q.queries.len(), 0);
}

#[test]
fn query_drops_only_the_malformed_entry() {
    let q = Query::parse("a=1=2+b=3".into());
    assert_eq!(q.queries.len(), 1);
    assert_eq!(q.queries[0].key, "b");
    assert_eq!(q.queries[0].value, "3");
}

#[test]
fn query_duplicate_keys_are_preserved() {
    let q = Query::parse("a=1+a=2".into());
    assert_eq!(q.queries.len(), 2);
    assert_eq!(q.queries[0].value, "1");
    assert_eq!(q.queries[1].value, "2");
}

#[test]
fn query_whitespace_and_one_question_mark_are_trimmed() {
    let a = Query::parse("  ?a=1  ".into());
    let b = Query::parse("a=1".into());
    assert_eq!(a, b);
}

#[test]
fn keyvalue_splits_on_equals() {
    let kv = KeyValue::parse("x=y".into()).unwrap();
    assert_eq!(kv.key, "x");
    assert_eq!(kv.value, "y");
    assert!(KeyValue::parse("x=y=z".into()).is_none());
}

#[test]
fn query_empty_string_yields_one_empty_pair() {
    let q = Query::parse("".into());
    assert_eq!(q.queries.len(), 1);
    assert_eq!(q.queries[0].key, "");
    assert_eq!(q.queries[0].value, "");
}
