use gengis_mimi::json::{Json, Number};
use gengis_mimi::textmap::{join_lists, TextMap};

fn float(value: f64) -> Json {
    Json::Number(Number::Float(value.to_bits()))
}

fn positive(value: u64) -> Json {
    Json::Number(Number::PosInt(value))
}

#[test]
fn equality_follows_the_kind_of_a_number() {
    assert!(float(-0.0).equals(&float(0.0)));
    assert!(!float(1.0).equals(&positive(1)));
    assert!(positive(u64::MAX).equals(&positive(u64::MAX)));
    assert!(!positive(1).equals(&Json::Number(Number::NegInt(1))));
    assert!(Json::Null.equals(&Json::Null));
    assert!(!Json::Null.equals(&Json::Bool(false)));
    let list = |first: f64| Json::Array(vec![float(first), Json::Text("x".into())]);
    assert!(list(-0.0).equals(&list(0.0)));
    assert!(!list(1.0).equals(&list(0.0)));
    assert!(!list(0.0).equals(&Json::Array(vec![float(0.0)])));
    let object = |key: &str, value: f64| Json::Object(vec![(key.into(), float(value))]);
    assert!(object("a", 0.0).equals(&object("a", -0.0)));
    assert!(!object("a", 0.0).equals(&object("b", 0.0)));
}

#[test]
fn equal_values_have_one_canonical_form() {
    let value = Json::Object(vec![
        ("a".into(), Json::Array(vec![float(-0.0), float(-2.5)])),
        ("b".into(), float(-0.0)),
    ]);
    let form = value.canonicalize();
    match form {
        Json::Object(members) => {
            assert!(matches!(&members[0].1, Json::Array(items)
                if matches!(items[0], Json::Number(Number::Float(0)))
                && matches!(items[1], Json::Number(Number::Float(bits)) if bits == (-2.5f64).to_bits())));
            assert!(matches!(members[1].1, Json::Number(Number::Float(0))));
        }
        _ => panic!("an object stays an object"),
    }
}

#[test]
fn numbers_read_as_doubles_like_the_json_library_reads_them() {
    for number in [0u64, 3, 1 << 53, (1 << 53) + 1, u64::MAX] {
        let expected = serde_json::Number::from(number).as_f64().map(f64::to_bits);
        assert_eq!(positive(number).as_double(), expected);
    }
    assert_eq!(positive((1 << 53) + 1).as_double(), Some(9007199254740992.0f64.to_bits()));
    for number in [-1i64, i64::MIN] {
        let value = Json::Number(Number::NegInt(number));
        assert_eq!(value.as_double(), Some((number as f64).to_bits()));
    }
    assert_eq!(float(0.1).as_double(), Some(0.1f64.to_bits()));
    assert_eq!(Json::Text("1".into()).as_double(), None);
    assert_eq!(Json::Null.as_double(), None);
}

#[test]
fn only_strings_read_as_text() {
    assert_eq!(Json::Text("words".into()).as_text().map(String::as_str), Some("words"));
    assert!(positive(1).as_text().is_none());
    assert!(Json::Array(vec![Json::Text("x".into())]).as_text().is_none());
}

#[test]
fn a_text_map_keeps_its_keys_in_byte_order() {
    let mut map = TextMap::new();
    for (i, key) in ["b", "aa", "é", "a", "B"].into_iter().enumerate() {
        assert!(map.insert(key.to_string(), i).is_none());
    }
    let keys: Vec<&str> = (0..map.len()).map(|i| map.key(i).as_str()).collect();
    assert_eq!(keys, ["B", "a", "aa", "b", "é"]);
    assert_eq!(map.insert("a".into(), 9), Some(3));
    assert_eq!(map.get("a"), Some(&9));
    assert_eq!(map.remove("aa"), Some(1));
    assert_eq!(map.remove("aa"), None);
    assert!(!map.contains("aa"));
    assert_eq!(map.len(), 4);
    assert!(!map.is_empty());
}

#[test]
fn joined_lists_keep_the_order_of_their_parts() {
    let mut parts: Vec<TextMap<Vec<u32>>> = Vec::new();
    for i in 0..5u32 {
        let mut part = TextMap::new();
        part.insert("all".to_string(), vec![i]);
        part.insert(format!("own/{}", 4 - i), vec![i, i]);
        parts.push(part);
    }
    let joined = join_lists(parts);
    let keys: Vec<&str> = (0..joined.len()).map(|i| joined.key(i).as_str()).collect();
    assert_eq!(keys, ["all", "own/0", "own/1", "own/2", "own/3", "own/4"]);
    assert_eq!(joined.get("all").unwrap(), &[0, 1, 2, 3, 4]);
    assert_eq!(joined.get("own/3").unwrap(), &[1, 1]);
    assert!(join_lists(Vec::<TextMap<Vec<u32>>>::new()).is_empty());
}
