use cropped::object::{Dictionary, Document, Error, ObjectId, Stream, StreamContent, Value};
use cropped::transplant::{transplant, CopyCache};

fn dict(entries: Vec<(&str, Value)>) -> Value {
    Value::Dictionary(Dictionary {
        entries: entries.into_iter().map(|(k, v)| (k.to_string(), v)).collect(),
    })
}

fn reference(n: u32) -> Value {
    Value::Reference(ObjectId(n))
}

#[test]
fn shared_reference_is_copied_once() {
    let mut source = Document::new();
    let font = source.add_object(dict(vec![("Type", Value::Name("Font".to_string()))]));
    let value = Value::Array(vec![Value::Reference(font), Value::Reference(font)]);
    let mut dest = Document::new();
    let mut cache = CopyCache::new(&source);
    let copied = transplant(&source, &value, &mut dest, &mut cache).unwrap();
    let again = transplant(&source, &Value::Reference(font), &mut dest, &mut cache).unwrap();
    match copied {
        Value::Array(items) => {
            assert_eq!(items.len(), 2);
            assert_eq!(items[0], items[1]);
            assert_eq!(items[0], again);
        }
        other => panic!("expected an array, got {:?}", other),
    }
    // Object 0 is never used; the font was copied exactly once.
    assert_eq!(dest.objects.len(), 2);
    assert_eq!(
        dest.objects[1],
        Some(dict(vec![("Type", Value::Name("Font".to_string()))]))
    );
}

#[test]
fn second_call_reuses_the_cached_copy() {
    let mut source = Document::new();
    let x = source.add_object(Value::Integer(7));
    let mut dest = Document::new();
    let mut cache = CopyCache::new(&source);
    let first = transplant(&source, &Value::Reference(x), &mut dest, &mut cache).unwrap();
    let len_after_first = dest.objects.len();
    let second = transplant(&source, &Value::Reference(x), &mut dest, &mut cache).unwrap();
    assert_eq!(first, second);
    assert_eq!(dest.objects.len(), len_after_first);
    assert_eq!(cache.get(x), Some(ObjectId(1)));
}

#[test]
fn cycle_terminates_with_two_objects() {
    let mut source = Document::new();
    let a = source.add_object(dict(vec![("Next", reference(2))]));
    let b = source.add_object(dict(vec![("Next", reference(1))]));
    assert_eq!((a, b), (ObjectId(1), ObjectId(2)));
    let mut dest = Document::new();
    dest.add_object(Value::Null);
    let mut cache = CopyCache::new(&source);
    let r = transplant(&source, &Value::Reference(a), &mut dest, &mut cache).unwrap();
    assert_eq!(r, reference(2));
    assert_eq!(dest.objects.len(), 4);
    assert_eq!(dest.objects[2], Some(dict(vec![("Next", reference(3))])));
    assert_eq!(dest.objects[3], Some(dict(vec![("Next", reference(2))])));
}

#[test]
fn self_referencing_resources_terminate() {
    let mut source = Document::new();
    source.add_object(dict(vec![("Resources", dict(vec![("Page", reference(1))]))]));
    let mut dest = Document::new();
    let mut cache = CopyCache::new(&source);
    let r = transplant(&source, &reference(1), &mut dest, &mut cache).unwrap();
    assert_eq!(r, reference(1));
    assert_eq!(dest.objects.len(), 2);
    assert_eq!(
        dest.objects[1],
        Some(dict(vec![("Resources", dict(vec![("Page", reference(1))]))]))
    );
}

#[test]
fn dangling_reference_is_an_error() {
    let mut source = Document::new();
    source.add_object(dict(vec![("Missing", reference(9))]));
    let mut dest = Document::new();
    let mut cache = CopyCache::new(&source);
    let r = transplant(&source, &reference(1), &mut dest, &mut cache);
    assert_eq!(r, Err(Error::DanglingReference(ObjectId(9))));
}

#[test]
fn inline_containers_stay_inline() {
    let source = Document::new();
    let value = dict(vec![("Kids", Value::Array(vec![Value::Integer(1), Value::Boolean(true)]))]);
    let mut dest = Document::new();
    let mut cache = CopyCache::new(&source);
    let r = transplant(&source, &value, &mut dest, &mut cache).unwrap();
    assert_eq!(r, dict(vec![("Kids", Value::Array(vec![Value::Integer(1), Value::Boolean(true)]))]));
    assert_eq!(dest.objects.len(), 1);
}

#[test]
fn stream_payload_is_copied_verbatim() {
    let mut source = Document::new();
    let font = source.add_object(Value::Name("F".to_string()));
    let stream = Value::Stream(Stream {
        dict: Dictionary { entries: vec![("Font".to_string(), Value::Reference(font))] },
        content: StreamContent::Bytes(vec![0, 1, 2, 255]),
    });
    let s = source.add_object(stream);
    let mut dest = Document::new();
    dest.add_object(Value::Null);
    dest.add_object(Value::Null);
    let mut cache = CopyCache::new(&source);
    let r = transplant(&source, &Value::Reference(s), &mut dest, &mut cache).unwrap();
    assert_eq!(r, reference(3));
    assert_eq!(
        dest.objects[3],
        Some(Value::Stream(Stream {
            dict: Dictionary { entries: vec![("Font".to_string(), reference(4))] },
            content: StreamContent::Bytes(vec![0, 1, 2, 255]),
        }))
    );
    assert_eq!(dest.objects[4], Some(Value::Name("F".to_string())));
}
