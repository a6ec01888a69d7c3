use query_map::multi::QueryMap;
use query_map::wire::WireMap;

/// Builds a multi-valued map from a JSON object of string arrays, the way
/// the inbound (newer) wire shape is read.
fn query_map_from_json(field: &serde_json::Value) -> QueryMap {
    let mut m = QueryMap::new();
    for (k, vs) in field.as_object().unwrap() {
        for v in vs.as_array().unwrap() {
            m.add_value(k, v.as_str().unwrap().to_owned());
        }
    }
    m
}

/// Renders a wire map as a JSON object with one string value per key, the
/// outbound (older) wire shape.
fn wire_to_json(w: &WireMap) -> serde_json::Value {
    let mut obj = serde_json::Map::new();
    for e in w.entries() {
        obj.insert(e.0.clone(), serde_json::Value::String(e.1.clone()));
    }
    serde_json::Value::Object(obj)
}

#[test]
fn test_serialize_query_string_parameters() {
    let data: serde_json::Value =
        serde_json::from_str(r#"{"v":{"key1":["value1","value2","value3"]}}"#).unwrap();
    let decoded_v = query_map_from_json(data.as_object().unwrap().get("v").unwrap());

    let key1_value = decoded_v.all("key1").unwrap();
    assert_eq!(3, key1_value.len());
    assert_eq!("value1", *(key1_value.first().unwrap()));

    let mut outer = serde_json::Map::new();
    outer.insert("v".to_owned(), wire_to_json(&decoded_v.downgrade()));
    let encoded = serde_json::to_string(&serde_json::Value::Object(outer)).unwrap();
    assert_eq!(encoded, r#"{"v":{"key1":"value1"}}"#.to_string());
}

#[test]
fn empty_map_downgrades_to_empty_object() {
    let m = QueryMap::new();
    let w = m.downgrade();
    assert_eq!(0, w.len());
    assert!(w.entries().is_empty());
    let encoded = serde_json::to_string(&wire_to_json(&w)).unwrap();
    assert_eq!(encoded, "{}".to_string());
}

#[test]
fn key_set_is_preserved() {
    let mut m = QueryMap::new();
    m.add_value("alpha", "a1".to_owned());
    m.add_value("alpha", "a2".to_owned());
    m.add_value("beta", "b1".to_owned());
    m.add_value("gamma", "c1".to_owned());
    let w = m.downgrade();

    assert_eq!(m.len(), w.len());
    let mut source_keys = m.keys();
    source_keys.sort();
    let mut wire_keys: Vec<String> = w.entries().iter().map(|e| e.0.clone()).collect();
    wire_keys.sort();
    assert_eq!(source_keys, wire_keys);
    assert!(w.get("alpha").is_some());
    assert!(w.get("beta").is_some());
    assert!(w.get("gamma").is_some());
    assert!(w.get("delta").is_none());
}

#[test]
fn first_value_is_selected() {
    let mut m = QueryMap::new();
    m.add_value("repeated", "first".to_owned());
    m.add_value("repeated", "second".to_owned());
    m.add_value("repeated", "third".to_owned());
    m.add_value("single", "only".to_owned());
    let w = m.downgrade();

    assert_eq!("first", *(w.get("repeated").unwrap()));
    assert_eq!("only", *(w.get("single").unwrap()));
    assert_eq!("first", *(m.first("repeated").unwrap()));
}

#[test]
fn every_wire_value_is_a_scalar_string() {
    let mut m = QueryMap::new();
    m.add_value("key1", "value1".to_owned());
    m.add_value("key1", "value2".to_owned());
    m.add_value("key2", "value3".to_owned());
    let rendered = wire_to_json(&m.downgrade());
    let obj = rendered.as_object().unwrap();
    assert_eq!(2, obj.len());
    for v in obj.values() {
        assert!(v.is_string());
        assert!(!v.is_array());
    }
}

#[test]
fn downgrading_twice_yields_the_same_pairs() {
    let mut m = QueryMap::new();
    m.add_value("key1", "value1".to_owned());
    m.add_value("key1", "value2".to_owned());
    m.add_value("key2", "value3".to_owned());

    let once = serde_json::to_string(&wire_to_json(&m.downgrade())).unwrap();
    let again = serde_json::to_string(&wire_to_json(&m.downgrade())).unwrap();
    let parsed_once: serde_json::Value = serde_json::from_str(&once).unwrap();
    let parsed_again: serde_json::Value = serde_json::from_str(&again).unwrap();
    assert_eq!(parsed_once, parsed_again);
}

#[test]
fn round_trip_does_not_recover_later_values() {
    let mut m = QueryMap::new();
    m.add_value("key1", "value1".to_owned());
    m.add_value("key1", "value2".to_owned());
    m.add_value("key1", "value3".to_owned());
    assert_eq!(3, m.all("key1").unwrap().len());

    let w = m.downgrade();
    let mut rebuilt = QueryMap::new();
    for e in w.entries() {
        rebuilt.add_value(&e.0, e.1.clone());
    }

    let recovered = rebuilt.all("key1").unwrap();
    assert_ne!(3, recovered.len());
    assert_eq!(1, recovered.len());
    assert_eq!("value1", *(recovered.first().unwrap()));
}

#[test]
fn values_keep_their_order() {
    let mut m = QueryMap::new();
    m.add_value("key", "v1".to_owned());
    m.add_value("key", "v2".to_owned());
    m.add_value("key", "v3".to_owned());
    let vs = m.all("key").unwrap();
    assert_eq!(vec!["v1".to_owned(), "v2".to_owned(), "v3".to_owned()], *vs);
    assert!(m.all("other").is_none());
    assert!(m.first("other").is_none());
    assert_eq!(1, m.len());
}
