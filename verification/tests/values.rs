use json_value::number::Double;
use json_value::value::{Json, Object};

fn float(x: f64) -> Json {
    Json::from(Double::from_bits(x.to_bits()))
}

fn as_f64(value: &Json) -> f64 {
    f64::from_bits(value.as_number().unwrap().to_bits())
}

#[test]
fn boolean_coercion_round_trips() {
    for b in [true, false] {
        let coerced = Json::from(b);
        assert_eq!(coerced.as_boolean(), Some(b));
        assert_eq!(coerced, Json::Boolean(b));
        assert!(coerced.as_number().is_none());
        assert!(coerced.as_str().is_none());
    }
}

#[test]
fn text_coercion_round_trips() {
    let borrowed = Json::from("yes");
    assert_eq!(borrowed.as_str(), Some("yes"));
    assert_eq!(borrowed, Json::String("yes".to_string()));
    let owned = Json::from(String::from("héllo ✓"));
    assert_eq!(owned.as_str(), Some("héllo ✓"));
    assert_eq!(owned, Json::String("héllo ✓".to_string()));
    assert_eq!(Json::from("").as_str(), Some(""));
    assert_eq!(owned.as_boolean(), None);
}

#[test]
fn numeric_coercion_round_trips() {
    assert_eq!(as_f64(&Json::from(200u8)), 200.0);
    assert_eq!(as_f64(&Json::from(-100i8)), -100.0);
    assert_eq!(as_f64(&Json::from(65_535u16)), 65_535.0);
    assert_eq!(as_f64(&Json::from(-32_768i16)), -32_768.0);
    assert_eq!(as_f64(&Json::from(4_000_000_000u32)), 4_000_000_000.0);
    assert_eq!(as_f64(&Json::from(-2_000_000_000i32)), -2_000_000_000.0);
    assert_eq!(as_f64(&Json::from(u64::MAX)), u64::MAX as f64);
    assert_eq!(as_f64(&Json::from(i64::MIN)), i64::MIN as f64);
    assert_eq!(as_f64(&Json::from(u128::MAX)), u128::MAX as f64);
    assert_eq!(as_f64(&Json::from(i128::MIN)), i128::MIN as f64);
    assert_eq!(as_f64(&Json::from(12_345usize)), 12_345.0);
    assert_eq!(as_f64(&Json::from(-12_345isize)), -12_345.0);
    assert_eq!(as_f64(&Json::from(0)), 0.0);
    assert_eq!(as_f64(&float(480.0)), 480.0);
    assert_eq!(as_f64(&float(-0.5)), -0.5);
    assert_eq!(Json::from(1), float(1.0));
    assert_eq!(Json::from(Double::from_bits(7)).as_number().unwrap().to_bits(), 7);
}

#[test]
fn large_integers_lose_precision_silently() {
    let exact: u64 = 1 << 53;
    assert_eq!(Json::from(exact + 1), Json::from(exact));
    assert_eq!(as_f64(&Json::from(exact + 1)), 9_007_199_254_740_992.0);
    assert_eq!(as_f64(&Json::from(exact + 3)), 9_007_199_254_740_996.0);
    assert_ne!(Json::from(exact + 2), Json::from(exact));
}

#[test]
fn direct_construction_and_inspection() {
    assert!(Json::null().is_null());
    assert!(Json::Null.is_null());
    assert!(!Json::Boolean(false).is_null());
    let array = Json::array(vec![Json::Null, Json::from(true)]);
    let items = array.as_array().unwrap();
    assert_eq!(items.len(), 2);
    assert!(items[0].is_null());
    assert_eq!(items[1].as_boolean(), Some(true));
    assert!(array.as_object().is_none());
    let empty = Json::array(vec![]);
    assert_eq!(empty.as_array().unwrap().len(), 0);
    let object = Json::object(vec![("a".to_string(), Json::from(1))]);
    assert_eq!(object.as_object().unwrap().len(), 1);
    assert!(object.as_array().is_none());
    assert!(object.as_str().is_none());
}

#[test]
fn object_from_pairs_keeps_each_key_once() {
    let object = Object::from_pairs(vec![
        ("a".to_string(), Json::from(1)),
        ("b".to_string(), Json::from(2)),
        ("a".to_string(), Json::from(3)),
        ("c".to_string(), Json::Null),
        ("b".to_string(), Json::from("last")),
    ]);
    assert_eq!(object.len(), 3);
    assert!(!object.is_empty());
    assert_eq!(object.get("a"), Some(&Json::from(3)));
    assert_eq!(object.get("b"), Some(&Json::from("last")));
    assert_eq!(object.get("c"), Some(&Json::Null));
    assert_eq!(object.get("d"), None);
    assert!(object.contains_key("a"));
    assert!(!object.contains_key("A"));
    let mut keys = object.keys();
    keys.sort();
    assert_eq!(keys, vec!["a".to_string(), "b".to_string(), "c".to_string()]);
}

#[test]
fn empty_object_has_nothing() {
    let object = Object::new();
    assert_eq!(object.len(), 0);
    assert!(object.is_empty());
    assert_eq!(object.get("a"), None);
    assert!(object.keys().is_empty());
    assert_eq!(object, Object::from_pairs(vec![]));
}

#[test]
fn equality_is_structural() {
    let a = Json::object(vec![
        ("x".to_string(), Json::array(vec![Json::from(1), Json::from(2)])),
        ("y".to_string(), Json::from("t")),
    ]);
    let b = Json::object(vec![
        ("y".to_string(), Json::from("t")),
        ("x".to_string(), Json::array(vec![Json::from(1), Json::from(2)])),
    ]);
    let c = Json::object(vec![
        ("y".to_string(), Json::from("t")),
        ("x".to_string(), Json::array(vec![Json::from(2), Json::from(1)])),
    ]);
    let d = Json::object(vec![("y".to_string(), Json::from("t"))]);
    let e = Json::object(vec![
        ("y".to_string(), Json::from("t")),
        ("z".to_string(), Json::array(vec![Json::from(1), Json::from(2)])),
    ]);
    assert_eq!(a, a);
    assert_eq!(a, b);
    assert_eq!(b, a);
    assert_ne!(a, c);
    assert_ne!(a, d);
    assert_ne!(d, a);
    assert_ne!(a, e);
    assert_ne!(Json::Null, Json::Boolean(false));
    assert_ne!(Json::from(0), Json::Boolean(false));
    assert_ne!(Json::from("1"), Json::from(1));
    assert_ne!(Json::array(vec![]), Json::object(vec![]));
    assert_ne!(Json::array(vec![Json::Null]), Json::array(vec![]));
    assert_eq!(Json::array(vec![]), Json::Array(Vec::new()));
}

#[test]
fn equality_is_transitive_on_samples() {
    let a = Json::array(vec![float(0.0), Json::from("s")]);
    let b = Json::array(vec![float(-0.0), Json::from("s")]);
    let c = Json::array(vec![Json::from(0), Json::from("s")]);
    assert_eq!(a, b);
    assert_eq!(b, c);
    assert_eq!(a, c);
}

#[test]
fn numbers_compare_as_doubles_do() {
    assert_eq!(float(0.0), float(-0.0));
    assert_ne!(float(f64::NAN), float(f64::NAN));
    assert_ne!(float(1.0), float(1.0 + f64::EPSILON));
    assert_eq!(float(f64::INFINITY), float(f64::INFINITY));
    assert_ne!(float(f64::INFINITY), float(f64::NEG_INFINITY));
    let with_nan = Json::array(vec![float(f64::NAN)]);
    assert_ne!(with_nan, with_nan.clone());
}

#[test]
fn clone_is_a_deep_copy() {
    let source = Json::object(vec![
        ("list".to_string(), Json::array(vec![Json::from(1), Json::Null, Json::from("x")])),
        ("inner".to_string(), Json::object(vec![("k".to_string(), Json::from(false))])),
    ]);
    let copy = source.clone();
    assert_eq!(copy, source);
    let inner = copy.as_object().unwrap().get("inner").unwrap().as_object().unwrap();
    assert_eq!(inner.get("k"), Some(&Json::Boolean(false)));
    let object_copy = source.as_object().unwrap().clone();
    assert_eq!(&object_copy, source.as_object().unwrap());
}
