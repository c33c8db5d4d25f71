use hjson::builder::{ArrayBuilder, ObjectBuilder};
use hjson::value::{Value, ValueMap};

#[test]
fn map_keeps_insertion_order() {
    let mut m = ValueMap::new();
    assert_eq!(m.insert("b".to_string(), Value::U64(1)), None);
    assert_eq!(m.insert("a".to_string(), Value::U64(2)), None);
    assert_eq!(m.len(), 2);
    assert_eq!(m.get(&"b".to_string()), Some(&Value::U64(1)));
    assert_eq!(m.get(&"a".to_string()), Some(&Value::U64(2)));
    assert_eq!(m.get(&"c".to_string()), None);
}

#[test]
fn map_replaces_value_in_place() {
    let mut m = ValueMap::new();
    m.insert("k".to_string(), Value::U64(1));
    m.insert("other".to_string(), Value::Null);
    let old = m.insert("k".to_string(), Value::Bool(true));
    assert_eq!(old, Some(Value::U64(1)));
    assert_eq!(m.len(), 2);
    assert_eq!(m.get(&"k".to_string()), Some(&Value::Bool(true)));
}

#[test]
fn array_builder_collects_in_order() {
    let v = ArrayBuilder::new()
        .push(Value::U64(1))
        .push(Value::Str("two".to_string()))
        .push(Value::Null)
        .unwrap();
    match v {
        Value::Array(items) => {
            assert_eq!(items.len(), 3);
            assert_eq!(items[0], Value::U64(1));
            assert_eq!(items[1], Value::Str("two".to_string()));
            assert_eq!(items[2], Value::Null);
        }
        _ => panic!("expected an array"),
    }
}

#[test]
fn nested_builders() {
    let v = ObjectBuilder::new()
        .insert("name".to_string(), Value::Str("point".to_string()))
        .insert_array("points".to_string(), |b| {
            b.push_object(|b| b.insert("x".to_string(), Value::I64(-1)))
                .push_object(|b| b.insert("y".to_string(), Value::U64(2)))
        })
        .unwrap();
    match v {
        Value::Object(m) => {
            assert_eq!(m.len(), 2);
            assert_eq!(
                m.get(&"name".to_string()),
                Some(&Value::Str("point".to_string()))
            );
            match m.get(&"points".to_string()) {
                Some(Value::Array(points)) => {
                    assert_eq!(points.len(), 2);
                    match &points[0] {
                        Value::Object(p) => {
                            assert_eq!(p.get(&"x".to_string()), Some(&Value::I64(-1)));
                        }
                        _ => panic!("expected an object"),
                    }
                }
                _ => panic!("expected an array entry"),
            }
        }
        _ => panic!("expected an object"),
    }
}
