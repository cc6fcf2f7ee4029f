use cropped::compose::compose;
use cropped::content::read_operations;
use cropped::geometry::Size;
use cropped::object::{Dictionary, Document, Error, ObjectId, Operation, Stream, StreamContent, Value};

fn dict(entries: Vec<(&str, Value)>) -> Dictionary {
    Dictionary { entries: entries.into_iter().map(|(k, v)| (k.to_string(), v)).collect() }
}

fn ints(xs: &[i64]) -> Value {
    Value::Array(xs.iter().map(|x| Value::Integer(*x)).collect())
}

fn op(name: &str, operands: Vec<Value>) -> Operation {
    Operation { operator: name.to_string(), operands }
}

fn ops_stream(ops: Vec<Operation>) -> Value {
    Value::Stream(Stream { dict: Dictionary::new(), content: StreamContent::Operations(ops) })
}

fn number(v: &Value) -> f64 {
    match v {
        Value::Integer(i) => *i as f64,
        Value::Real(d) => d.mantissa as f64 / 10f64.powi(d.scale as i32),
        other => panic!("not a number: {:?}", other),
    }
}

/// A template page that strokes one line and uses a shared font.
fn template() -> (Document, ObjectId) {
    let mut t = Document::new();
    let font = t.add_object(Value::Dictionary(dict(vec![("Type", Value::Name("Font".to_string()))])));
    let content = t.add_object(ops_stream(vec![
        op("m", vec![Value::Integer(0), Value::Integer(0)]),
        op("l", vec![Value::Integer(10), Value::Integer(0)]),
        op("S", vec![]),
    ]));
    let page = t.add_object(Value::Dictionary(dict(vec![
        ("Type", Value::Name("Page".to_string())),
        ("MediaBox", ints(&[0, 0, 595, 842])),
        ("Contents", Value::Reference(content)),
        ("Resources", Value::Dictionary(dict(vec![("Font", Value::Dictionary(dict(vec![("T1", Value::Reference(font))])))]))),
    ])));
    (t, page)
}

/// A manuscript whose pages all use one shared font; page `i` shows its number.
fn manuscript(n: usize) -> (Document, Vec<ObjectId>) {
    let mut m = Document::new();
    let font = m.add_object(Value::Dictionary(dict(vec![("Type", Value::Name("Font".to_string()))])));
    let info = m.add_object(Value::Dictionary(dict(vec![("Title", Value::String(b"Book".to_vec()))])));
    m.info = Some(info);
    let mut pages = Vec::new();
    for i in 0..n {
        let content = m.add_object(ops_stream(vec![op("Tj", vec![Value::String(format!("{}", i + 1).into_bytes())])]));
        let page = m.add_object(Value::Dictionary(dict(vec![
            ("MediaBox", ints(&[0, 0, 432, 648])),
            ("Contents", Value::Array(vec![Value::Reference(content)])),
            ("Resources", Value::Dictionary(dict(vec![("Font", Value::Dictionary(dict(vec![("F1", Value::Reference(font))])))]))),
        ])));
        pages.push(page);
    }
    (m, pages)
}

fn get<'a>(doc: &'a Document, v: &Value) -> &'a Value {
    match v {
        Value::Reference(id) => doc.get_object(*id).expect("resolves"),
        other => panic!("not a reference: {:?}", other),
    }
}

fn as_dict(v: &Value) -> &Dictionary {
    match v {
        Value::Dictionary(d) => d,
        other => panic!("not a dictionary: {:?}", other),
    }
}

fn as_ops(v: &Value) -> &Vec<Operation> {
    match v {
        Value::Stream(Stream { content: StreamContent::Operations(ops), .. }) => ops,
        other => panic!("not an operations stream: {:?}", other),
    }
}

fn kids(out: &Document) -> Vec<Value> {
    let tree = as_dict(out.get_object(ObjectId(1)).unwrap());
    match tree.get("Kids") {
        Some(Value::Array(k)) => k.iter().map(cropped::object::duplicate).collect(),
        other => panic!("{:?}", other),
    }
}

fn form_text(out: &Document, page: &Value) -> Vec<u8> {
    let pd = as_dict(get(out, page));
    let res = as_dict(pd.get("Resources").unwrap());
    let xt = as_dict(res.get("XObject").unwrap());
    let form = get(out, xt.get("Manuscript").unwrap());
    match &as_ops(form)[0].operands[0] {
        Value::String(b) => b.clone(),
        other => panic!("{:?}", other),
    }
}

#[test]
fn pages_keep_manuscript_order() {
    for n in [0usize, 1, 5] {
        let (t, tp) = template();
        let (m, pages) = manuscript(n);
        let out = compose(&t, tp, &m, &pages, Size::points(595, 842), false).unwrap().document;
        let tree = as_dict(out.get_object(ObjectId(1)).unwrap());
        assert_eq!(tree.get("Count"), Some(&Value::Integer(n as i64)));
        let ks = kids(&out);
        assert_eq!(ks.len(), n);
        for (i, k) in ks.iter().enumerate() {
            assert_eq!(form_text(&out, k), format!("{}", i + 1).into_bytes());
            let pd = as_dict(get(&out, k));
            assert_eq!(pd.get("Parent"), Some(&Value::Reference(ObjectId(1))));
            assert_eq!(pd.get("MediaBox"), Some(&ints(&[0, 0, 595, 842])));
        }
        let catalog = as_dict(out.get_object(out.root.unwrap()).unwrap());
        assert_eq!(catalog.get("Pages"), Some(&Value::Reference(ObjectId(1))));
        let info = as_dict(out.get_object(out.info.unwrap()).unwrap());
        assert_eq!(info.get("Title"), Some(&Value::String(b"Book".to_vec())));
    }
}

#[test]
fn page_draws_template_then_centered_form() {
    let (t, tp) = template();
    let (m, pages) = manuscript(1);
    let out = compose(&t, tp, &m, &pages, Size::points(595, 842), false).unwrap().document;
    let ks = kids(&out);
    let pd = as_dict(get(&out, &ks[0]));
    let ops = as_ops(get(&out, pd.get("Contents").unwrap()));
    let names: Vec<&str> = ops.iter().map(|o| o.operator.as_str()).collect();
    assert_eq!(names, vec!["m", "l", "S", "q", "cm", "Do", "Q"]);
    assert_eq!(number(&ops[4].operands[3]), 1.0);
    assert_eq!(number(&ops[4].operands[4]), 81.5);
    assert_eq!(number(&ops[4].operands[5]), 97.0);
    assert_eq!(ops[5].operands, vec![Value::Name("Manuscript".to_string())]);
    let res = as_dict(pd.get("Resources").unwrap());
    assert!(matches!(res.get("Font"), Some(Value::Dictionary(_))));
}

#[test]
fn flipped_form_is_mirrored() {
    let (t, tp) = template();
    let (m, pages) = manuscript(1);
    let out = compose(&t, tp, &m, &pages, Size::points(595, 842), true).unwrap().document;
    let ks = kids(&out);
    let pd = as_dict(get(&out, &ks[0]));
    let ops = as_ops(get(&out, pd.get("Contents").unwrap()));
    assert_eq!(number(&ops[4].operands[3]), -1.0);
    assert_eq!(number(&ops[4].operands[5]), 97.0 + 648.0);
}

#[test]
fn shared_objects_are_copied_once() {
    let (t, tp) = template();
    let (m, pages) = manuscript(3);
    let out = compose(&t, tp, &m, &pages, Size::points(595, 842), false).unwrap().document;
    let fonts = out
        .objects
        .iter()
        .filter(|o| matches!(o, Some(Value::Dictionary(d)) if d.get("Type") == Some(&Value::Name("Font".to_string()))))
        .count();
    // One copy of the template's font and one of the manuscript's.
    assert_eq!(fonts, 2);
}

#[test]
fn bad_pages_are_errors() {
    let (t, tp) = template();
    let (m, mut pages) = manuscript(1);
    assert_eq!(compose(&t, ObjectId(2), &m, &pages, Size::points(595, 842), false).err(), Some(Error::NotAPage(ObjectId(2))));
    pages.push(ObjectId(1));
    assert_eq!(compose(&t, tp, &m, &pages, Size::points(595, 842), false).err(), Some(Error::BadMediaBox(ObjectId(1))));
}

#[test]
fn dangling_resource_is_an_error() {
    let (t, tp) = template();
    let mut m = Document::new();
    let page = m.add_object(Value::Dictionary(dict(vec![
        ("MediaBox", ints(&[0, 0, 100, 100])),
        ("Resources", Value::Dictionary(dict(vec![("Font", Value::Reference(ObjectId(50)))]))),
    ])));
    assert_eq!(
        compose(&t, tp, &m, &vec![page], Size::points(595, 842), false).err(),
        Some(Error::DanglingReference(ObjectId(50)))
    );
}

#[test]
fn unreadable_content_is_reported_per_page() {
    let (t, tp) = template();
    let (mut m, pages) = manuscript(2);
    // Give the second page a content stream that was never decoded.
    let raw = m.add_object(Value::Stream(Stream { dict: Dictionary::new(), content: StreamContent::Bytes(b"BT ET".to_vec()) }));
    if let Some(Some(Value::Dictionary(d))) = m.objects.get_mut(pages[1].0 as usize) {
        d.set("Contents".to_string(), Value::Reference(raw));
    }
    let c = compose(&t, tp, &m, &pages, Size::points(595, 842), false).unwrap();
    assert_eq!(c.pages_read, vec![true, false]);
    assert!(c.template_read);
}

#[test]
fn operations_of_several_streams_are_read_in_order() {
    let mut d = Document::new();
    let a = d.add_object(ops_stream(vec![op("q", vec![])]));
    let b = d.add_object(Value::Stream(Stream { dict: Dictionary::new(), content: StreamContent::Bytes(b"Q".to_vec()) }));
    let c = d.add_object(ops_stream(vec![op("Q", vec![]), op("S", vec![])]));
    let all = Value::Array(vec![Value::Reference(a), Value::Reference(c)]);
    let (ops, complete) = read_operations(&d, Some(&all));
    let names: Vec<&str> = ops.iter().map(|o| o.operator.as_str()).collect();
    assert_eq!(names, vec!["q", "Q", "S"]);
    assert!(complete);
    let with_bytes = Value::Array(vec![Value::Reference(a), Value::Reference(b)]);
    let (ops, complete) = read_operations(&d, Some(&with_bytes));
    assert_eq!(ops.len(), 1);
    assert!(!complete);
    let (ops, complete) = read_operations(&d, Some(&Value::Integer(3)));
    assert!(ops.is_empty() && !complete);
    let (ops, complete) = read_operations(&d, Some(&Value::Reference(c)));
    assert_eq!(ops.len(), 2);
    assert!(complete);
}

#[test]
fn indirect_template_xobjects_defer_the_form_binding() {
    let (mut t, tp) = template();
    let xt = t.add_object(Value::Dictionary(dict(vec![("Logo", Value::Integer(1))])));
    if let Some(Some(Value::Dictionary(d))) = t.objects.get_mut(tp.0 as usize) {
        d.set("Resources".to_string(), Value::Dictionary(dict(vec![("XObject", Value::Reference(xt))])));
    }
    let (m, pages) = manuscript(2);
    let c = compose(&t, tp, &m, &pages, Size::points(595, 842), false).unwrap();
    assert_eq!(c.pages_deferred, vec![true, true]);
    let (t2, tp2) = template();
    let c2 = compose(&t2, tp2, &m, &pages, Size::points(595, 842), false).unwrap();
    assert_eq!(c2.pages_deferred, vec![false, false]);
}

#[test]
fn form_resources_are_the_page_resources_renamed() {
    let (t, tp) = template();
    let (m, pages) = manuscript(1);
    let out = compose(&t, tp, &m, &pages, Size::points(595, 842), false).unwrap().document;
    let ks = kids(&out);
    let pd = as_dict(get(&out, &ks[0]));
    let res = as_dict(pd.get("Resources").unwrap());
    let xt = as_dict(res.get("XObject").unwrap());
    let form = get(&out, xt.get("Manuscript").unwrap());
    let fdict = match form {
        Value::Stream(s) => &s.dict,
        other => panic!("{:?}", other),
    };
    let fres = as_dict(fdict.get("Resources").unwrap());
    let fonts = as_dict(fres.get("Font").unwrap());
    let font = as_dict(get(&out, fonts.get("F1").unwrap()));
    assert_eq!(font.get("Type"), Some(&Value::Name("Font".to_string())));
    // The page's own resources are the template's, copied.
    let tfonts = as_dict(res.get("Font").unwrap());
    assert!(matches!(tfonts.get("T1"), Some(Value::Reference(_))));
}
