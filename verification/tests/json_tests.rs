use singularity_benchmark::json::{json_contains, json_equal, numbers_equal, well_formed_json, Json, Number};

fn s(v: &str) -> Json {
    Json::String(v.to_string())
}

fn pos(v: u64) -> Json {
    Json::Number(Number::PosInt(v))
}

fn float(v: f64) -> Json {
    Json::Number(Number::Float(v.to_bits()))
}

fn obj(members: Vec<(&str, Json)>) -> Json {
    Json::Object(members.into_iter().map(|(k, v)| (k.to_string(), v)).collect())
}

#[test]
fn equal_values() {
    assert!(json_equal(&Json::Null, &Json::Null));
    assert!(json_equal(&pos(3), &pos(3)));
    assert!(!json_equal(&pos(3), &pos(4)));
    assert!(!json_equal(&pos(1), &float(1.0)));
    assert!(json_equal(&float(0.0), &float(-0.0)));
    assert!(!json_equal(&float(1.5), &float(-1.5)));
    assert!(json_equal(&s("x"), &s("x")));
    assert!(!json_equal(&s("x"), &Json::Bool(true)));
    let a = obj(vec![("a", pos(1)), ("b", Json::Array(vec![s("x"), Json::Null]))]);
    let b = obj(vec![("a", pos(1)), ("b", Json::Array(vec![s("x"), Json::Null]))]);
    let c = obj(vec![("a", pos(1)), ("b", Json::Array(vec![Json::Null, s("x")]))]);
    assert!(json_equal(&a, &b));
    assert!(!json_equal(&a, &c));
}

#[test]
fn float_equality_follows_f64() {
    let values = [0.0f64, -0.0, 1.0, -1.0, 1e300, f64::MIN_POSITIVE, 2.5];
    for x in values {
        for y in values {
            assert_eq!(numbers_equal(Number::Float(x.to_bits()), Number::Float(y.to_bits())), x == y);
        }
    }
    assert!(!numbers_equal(Number::NegInt(-1), Number::PosInt(1)));
    assert!(numbers_equal(Number::NegInt(-7), Number::NegInt(-7)));
}

#[test]
fn contains_objects_by_key() {
    let actual = obj(vec![("a", pos(1)), ("b", obj(vec![("c", s("x")), ("d", Json::Null)]))]);
    let expected = obj(vec![("b", obj(vec![("c", s("x"))]))]);
    assert!(json_contains(&actual, &expected));
    let missing = obj(vec![("z", pos(1))]);
    assert!(!json_contains(&actual, &missing));
    let wrong = obj(vec![("a", pos(2))]);
    assert!(!json_contains(&actual, &wrong));
    assert!(json_contains(&actual, &obj(vec![])));
}

#[test]
fn contains_arrays_by_element() {
    let actual = Json::Array(vec![pos(1), obj(vec![("k", s("v")), ("w", pos(2))]), pos(3)]);
    let expected = Json::Array(vec![obj(vec![("k", s("v"))]), pos(3)]);
    assert!(json_contains(&actual, &expected));
    let expected_missing = Json::Array(vec![pos(4)]);
    assert!(!json_contains(&actual, &expected_missing));
    assert!(json_contains(&actual, &Json::Array(vec![])));
    assert!(json_contains(&actual, &Json::Array(vec![pos(1), pos(1)])));
}

#[test]
fn contains_other_values_by_equality() {
    assert!(json_contains(&pos(5), &pos(5)));
    assert!(!json_contains(&pos(5), &s("5")));
    assert!(!json_contains(&Json::Array(vec![pos(1)]), &obj(vec![])));
    assert!(!json_contains(&obj(vec![]), &Json::Array(vec![])));
    assert!(json_contains(&float(-0.0), &float(0.0)));
}

#[test]
fn document_contains_itself() {
    let v = obj(vec![
        ("list", Json::Array(vec![pos(1), s("two"), Json::Bool(false)])),
        ("nested", obj(vec![("x", Json::Null)])),
    ]);
    assert!(json_contains(&v, &v));
    assert!(json_equal(&v, &v));
}

#[test]
fn holding_is_transitive_on_an_example() {
    let a = obj(vec![("x", Json::Array(vec![pos(1), pos(2), obj(vec![("y", Json::Null), ("z", pos(3))])]))]);
    let b = obj(vec![("x", Json::Array(vec![obj(vec![("y", Json::Null)]), pos(2)]))]);
    let c = obj(vec![("x", Json::Array(vec![obj(vec![])]))]);
    assert!(json_contains(&a, &b));
    assert!(json_contains(&b, &c));
    assert!(json_contains(&a, &c));
}

#[test]
fn well_formed_objects_have_ascending_keys() {
    assert!(well_formed_json(&obj(vec![("a", pos(1)), ("b", obj(vec![("c", Json::Null)]))])));
    assert!(!well_formed_json(&obj(vec![("b", pos(1)), ("a", pos(2))])));
    assert!(!well_formed_json(&obj(vec![("a", pos(1)), ("a", pos(2))])));
    assert!(!well_formed_json(&Json::Array(vec![pos(1), obj(vec![("z", pos(1)), ("y", pos(2))])])));
    assert!(well_formed_json(&Json::Array(vec![])));
}
