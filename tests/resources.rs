use cropped::object::{Dictionary, ObjectId, Value};
use cropped::resources::{merge, merge_table};

fn table(entries: Vec<(&str, Value)>) -> Dictionary {
    Dictionary { entries: entries.into_iter().map(|(k, v)| (k.to_string(), v)).collect() }
}

fn reference(n: u32) -> Value {
    Value::Reference(ObjectId(n))
}

#[test]
fn base_binding_wins_and_overlay_name_is_added() {
    let base = table(vec![("Font", Value::Dictionary(table(vec![("F1", reference(1))])))]);
    let overlay = table(vec![(
        "Font",
        Value::Dictionary(table(vec![("F1", reference(2)), ("F2", reference(3))])),
    )]);
    let m = merge(base, overlay);
    let merged = m.resources;
    let fonts = match merged.get("Font") {
        Some(Value::Dictionary(d)) => d,
        other => panic!("expected a font table, got {:?}", other),
    };
    assert_eq!(fonts.get("F1"), Some(&reference(1)));
    assert_eq!(fonts.get("F2"), Some(&reference(3)));
    assert_eq!(fonts.entries.len(), 2);
    assert_eq!(merged.entries.len(), 1);
    assert!(m.deferred.is_empty());
}

#[test]
fn class_only_in_overlay_is_added_unchanged() {
    let base = table(vec![("Font", Value::Dictionary(table(vec![("F1", reference(1))])))]);
    let overlay = table(vec![("XObject", Value::Dictionary(table(vec![("Im0", reference(5))])))]);
    let m = merge(base, overlay);
    let merged = m.resources;
    assert_eq!(merged.get("Font"), Some(&Value::Dictionary(table(vec![("F1", reference(1))]))));
    assert_eq!(merged.get("XObject"), Some(&Value::Dictionary(table(vec![("Im0", reference(5))]))));
}

#[test]
fn indirect_base_class_is_left_untouched() {
    let base = table(vec![("Font", reference(7))]);
    let overlay = table(vec![("Font", Value::Dictionary(table(vec![("F9", reference(2))])))]);
    let m = merge(base, overlay);
    let merged = m.resources;
    assert_eq!(merged.get("Font"), Some(&reference(7)));
    assert_eq!(merged.entries.len(), 1);
    assert_eq!(m.deferred, vec!["Font".to_string()]);
}

#[test]
fn empty_base_takes_the_overlay() {
    let m = merge(Dictionary::new(), table(vec![("ColorSpace", reference(4))]));
    assert!(m.deferred.is_empty());
    let merged = m.resources;
    assert_eq!(merged.get("ColorSpace"), Some(&reference(4)));
}

#[test]
fn table_union_keeps_first_overlay_binding() {
    let merged = merge_table(
        table(vec![("A", Value::Integer(1))]),
        table(vec![("B", Value::Integer(2)), ("B", Value::Integer(3)), ("A", Value::Integer(4))]),
    );
    assert_eq!(merged.get("A"), Some(&Value::Integer(1)));
    assert_eq!(merged.get("B"), Some(&Value::Integer(2)));
}
