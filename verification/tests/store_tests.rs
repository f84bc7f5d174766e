use memstore::ids::u64_to_dec;
use memstore::store::std_error;
use memstore::value::value_eq;
use memstore::ErrorKind;
use memstore::Object;
use memstore::Store;
use memstore::Value;

fn obj(fields: &[(&str, Value)]) -> Object {
    let mut o = Object::new();
    for (k, v) in fields {
        o.set(k, v.deep_clone());
    }
    o
}

fn num(n: i64) -> Value {
    Value::Num(n)
}

fn s(t: &str) -> Value {
    Value::Str(t.to_string())
}

fn field<'a>(o: &'a Object, k: &str) -> &'a Value {
    o.get(k).expect("field missing")
}

fn assert_num(o: &Object, k: &str, expected: i64) {
    match field(o, k) {
        Value::Num(n) => assert_eq!(*n, expected),
        _ => panic!("field {} is not a number", k),
    }
}

fn assert_str(o: &Object, k: &str, expected: &str) {
    match field(o, k) {
        Value::Str(v) => assert_eq!(v, expected),
        _ => panic!("field {} is not a string", k),
    }
}

fn data_entries(listing: &Object) -> Vec<Value> {
    match field(listing, "data") {
        Value::Arr(items) => items.iter().map(|v| v.deep_clone()).collect(),
        _ => panic!("\"data\" is not an array"),
    }
}

#[test]
fn post_assigns_sequential_ids() {
    let mut st = Store::new();
    let mut ids = Vec::new();
    for i in 0..3 {
        let r = st.post(&obj(&[("n", num(i))]), &Object::new());
        match field(&r, "id") {
            Value::Str(id) => ids.push(id.clone()),
            _ => panic!("id is not a string"),
        }
    }
    assert_eq!(ids, vec!["1".to_string(), "2".to_string(), "3".to_string()]);
    assert_eq!(st.last_num(), 3);
}

#[test]
fn post_overwrites_client_supplied_id() {
    let mut st = Store::new();
    let r = st.post(&obj(&[("id", s("999")), ("a", num(1))]), &Object::new());
    assert_str(&r, "id", "1");
    assert_num(&r, "a", 1);
}

#[test]
fn round_trip_get_returns_posted_object() {
    let mut st = Store::new();
    let posted = st.post(&obj(&[("a", num(1)), ("b", s("two"))]), &Object::new());
    let got = st.get("1", &Object::new()).expect("get failed");
    assert!(value_eq(&posted.to_value(), &got.to_value()));
}

#[test]
fn get_missing_is_not_found() {
    let st = Store::new();
    let err = st.get("1", &Object::new()).expect_err("get succeeded");
    assert_eq!(err.0, ErrorKind::NotFound);
}

#[test]
fn patch_rejects_id_field_and_leaves_store_unchanged() {
    let mut st = Store::new();
    let posted = st.post(&obj(&[("a", num(1))]), &Object::new());
    let err = st
        .patch("1", &obj(&[("id", s("999"))]), &Object::new())
        .expect_err("patch succeeded");
    assert_eq!(err.0, ErrorKind::BadRequest);
    let got = st.get("1", &Object::new()).expect("get failed");
    assert!(value_eq(&posted.to_value(), &got.to_value()));
}

#[test]
fn patch_missing_is_not_found() {
    let mut st = Store::new();
    let err = st
        .patch("42", &obj(&[("a", num(1))]), &Object::new())
        .expect_err("patch succeeded");
    assert_eq!(err.0, ErrorKind::NotFound);
}

#[test]
fn patch_merges_shallowly_and_keeps_unmentioned_fields() {
    let mut st = Store::new();
    st.post(&obj(&[("a", num(1)), ("b", num(2))]), &Object::new());
    let updated = st
        .patch("1", &obj(&[("b", num(3))]), &Object::new())
        .expect("patch failed");
    assert_str(&updated, "id", "1");
    assert_num(&updated, "a", 1);
    assert_num(&updated, "b", 3);
    let got = st.get("1", &Object::new()).expect("get failed");
    assert!(value_eq(&updated.to_value(), &got.to_value()));
}

#[test]
fn patch_replaces_nested_values_wholesale() {
    let mut st = Store::new();
    let nested_old = Value::Arr(vec![num(1), num(2)]);
    st.post(&obj(&[("xs", nested_old)]), &Object::new());
    let nested_new = Value::Arr(vec![num(9)]);
    let updated = st
        .patch("1", &obj(&[("xs", nested_new)]), &Object::new())
        .expect("patch failed");
    match field(&updated, "xs") {
        Value::Arr(items) => assert_eq!(items.len(), 1),
        _ => panic!("xs is not an array"),
    }
}

#[test]
fn delete_is_idempotent_on_missing_ids() {
    let mut st = Store::new();
    let echo = st.delete("missing-id", &Object::new());
    assert_str(&echo, "id", "missing-id");
    let err = st.get("missing-id", &Object::new()).expect_err("get succeeded");
    assert_eq!(err.0, ErrorKind::NotFound);
}

#[test]
fn delete_removes_and_id_is_never_reused() {
    let mut st = Store::new();
    st.post(&obj(&[("a", num(1))]), &Object::new());
    let echo = st.delete("1", &Object::new());
    assert_str(&echo, "id", "1");
    let err = st.get("1", &Object::new()).expect_err("get succeeded");
    assert_eq!(err.0, ErrorKind::NotFound);
    let r = st.post(&obj(&[("a", num(2))]), &Object::new());
    assert_str(&r, "id", "2");
}

#[test]
fn list_filters_by_structural_equality() {
    let mut st = Store::new();
    st.post(&obj(&[("x", s("a"))]), &Object::new());
    st.post(&obj(&[("x", s("b"))]), &Object::new());

    let only_a = data_entries(&st.list(&obj(&[("x", s("a"))])));
    assert_eq!(only_a.len(), 1);
    match &only_a[0] {
        Value::Obj(_) => {
            let mut check = Object::new();
            check.set("id", s("1"));
            check.set("x", s("a"));
            assert!(value_eq(&only_a[0], &check.to_value()));
        }
        _ => panic!("listed entry is not an object"),
    }

    let all = data_entries(&st.list(&Object::new()));
    assert_eq!(all.len(), 2);

    let none = data_entries(&st.list(&obj(&[("x", s("a")), ("y", s("z"))])));
    assert_eq!(none.len(), 0);
}

#[test]
fn list_matches_nested_objects_whatever_the_field_order() {
    let mut st = Store::new();
    let inner_one_way = Value::Obj(vec![
        ("p".to_string(), num(1)),
        ("q".to_string(), num(2)),
    ]);
    st.post(&obj(&[("inner", inner_one_way)]), &Object::new());
    let inner_other_way = Value::Obj(vec![
        ("q".to_string(), num(2)),
        ("p".to_string(), num(1)),
    ]);
    let found = data_entries(&st.list(&obj(&[("inner", inner_other_way)])));
    assert_eq!(found.len(), 1);
}

#[test]
fn many_posts_each_get_unique_ids_and_all_are_listed() {
    let mut st = Store::new();
    let m = 5;
    let mut ids: Vec<String> = Vec::new();
    for i in 0..m {
        let r = st.post(&obj(&[("n", num(i))]), &Object::new());
        match field(&r, "id") {
            Value::Str(id) => {
                assert!(!ids.contains(id));
                ids.push(id.clone());
            }
            _ => panic!("id is not a string"),
        }
    }
    let all = data_entries(&st.list(&Object::new()));
    assert_eq!(all.len(), m as usize);
}

#[test]
fn error_payload_has_kind_and_message() {
    let (kind, payload) = std_error(ErrorKind::NotFound, "gone");
    assert_eq!(kind, ErrorKind::NotFound);
    match &payload {
        Value::Obj(_) => {}
        _ => panic!("payload is not an object"),
    }
    let mut message = Object::new();
    message.set("type", s("NotFound"));
    message.set("message", s("gone"));
    let mut expected = Object::new();
    expected.set("error", message.to_value());
    assert!(value_eq(&payload, &expected.to_value()));
}

#[test]
fn error_kind_names() {
    assert_eq!(ErrorKind::NotFound.as_string(), "NotFound");
    assert_eq!(ErrorKind::BadRequest.as_string(), "BadRequest");
}

#[test]
fn decimal_identifier_strings_are_exact() {
    assert_eq!(u64_to_dec(0), "0");
    assert_eq!(u64_to_dec(7), "7");
    assert_eq!(u64_to_dec(10), "10");
    assert_eq!(u64_to_dec(12345), "12345");
    assert_eq!(u64_to_dec(u64::MAX), "18446744073709551615");
}

#[test]
fn structural_equality_ignores_object_order_but_not_array_order() {
    let one_way = Value::Obj(vec![("a".to_string(), num(1)), ("b".to_string(), num(2))]);
    let other_way = Value::Obj(vec![("b".to_string(), num(2)), ("a".to_string(), num(1))]);
    assert!(value_eq(&one_way, &other_way));

    let arr_one = Value::Arr(vec![num(1), num(2)]);
    let arr_two = Value::Arr(vec![num(2), num(1)]);
    assert!(!value_eq(&arr_one, &arr_two));

    assert!(!value_eq(&one_way, &arr_one));
    assert!(value_eq(&Value::Null, &Value::Null));
    assert!(!value_eq(&Value::Bool(true), &Value::Bool(false)));
}

#[test]
fn object_lookup_distinguishes_keys() {
    let o = obj(&[("a", num(1))]);
    assert!(o.get("a").is_some());
    assert!(o.get("b").is_none());
    assert!(o.get("aa").is_none());
}
