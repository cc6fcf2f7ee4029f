use cropped::fonts::embed_font;
use cropped::geometry::Size;
use cropped::object::{Decimal, Dictionary, Document, Error, ObjectId, Stream, StreamContent, Value};
use cropped::overlay::GlyphWidth;
use cropped::stamp::{combine, stamp_page};

fn number(v: &Value) -> f64 {
    match v {
        Value::Integer(i) => *i as f64,
        Value::Real(d) => d.mantissa as f64 / 10f64.powi(d.scale as i32),
        other => panic!("not a number: {:?}", other),
    }
}

fn dict(entries: Vec<(&str, Value)>) -> Dictionary {
    Dictionary { entries: entries.into_iter().map(|(k, v)| (k.to_string(), v)).collect() }
}

fn ints(xs: &[i64]) -> Value {
    Value::Array(xs.iter().map(|x| Value::Integer(*x)).collect())
}

/// The smallest TrueType font that parses: head, hhea and maxp tables only.
fn tiny_font(units_per_em: u16) -> Vec<u8> {
    let mut f: Vec<u8> = Vec::new();
    f.extend_from_slice(&0x0001_0000u32.to_be_bytes());
    f.extend_from_slice(&3u16.to_be_bytes());
    f.extend_from_slice(&[0, 0, 0, 0, 0, 0]);
    let tables: [(&[u8; 4], u32, u32); 3] = [(b"head", 60, 54), (b"hhea", 116, 36), (b"maxp", 152, 6)];
    for (tag, offset, length) in tables.iter() {
        f.extend_from_slice(&tag[..]);
        f.extend_from_slice(&0u32.to_be_bytes());
        f.extend_from_slice(&offset.to_be_bytes());
        f.extend_from_slice(&length.to_be_bytes());
    }
    let mut head = vec![0u8; 56];
    head[0..4].copy_from_slice(&0x0001_0000u32.to_be_bytes());
    head[18..20].copy_from_slice(&units_per_em.to_be_bytes());
    head[36..38].copy_from_slice(&(-10i16).to_be_bytes());
    head[38..40].copy_from_slice(&(-200i16).to_be_bytes());
    head[40..42].copy_from_slice(&(510i16).to_be_bytes());
    head[42..44].copy_from_slice(&(800i16).to_be_bytes());
    f.extend_from_slice(&head);
    let mut hhea = vec![0u8; 36];
    hhea[0..4].copy_from_slice(&0x0001_0000u32.to_be_bytes());
    hhea[4..6].copy_from_slice(&(780i16).to_be_bytes());
    hhea[6..8].copy_from_slice(&(-220i16).to_be_bytes());
    hhea[34..36].copy_from_slice(&1u16.to_be_bytes());
    f.extend_from_slice(&hhea);
    f.extend_from_slice(&0x0000_5000u32.to_be_bytes());
    f.extend_from_slice(&1u16.to_be_bytes());
    f
}

/// A document with `n` pages of 432 x 648 points, each with one content stream.
/// Object numbers: pages tree 1, then page i at 2 + 2i and its content at 3 + 2i.
fn manuscript(n: usize) -> (Document, Vec<ObjectId>) {
    let mut doc = Document::new();
    let tree = doc.add_object(Value::Null);
    let mut pages = Vec::new();
    for i in 0..n {
        let page_id = ObjectId(doc.objects.len() as u32);
        let content_id = ObjectId(page_id.0 + 1);
        doc.add_object(Value::Dictionary(dict(vec![
            ("Type", Value::Name("Page".to_string())),
            ("Parent", Value::Reference(tree)),
            ("MediaBox", ints(&[0, 0, 432, 648])),
            ("Contents", Value::Reference(content_id)),
            ("Resources", Value::Dictionary(dict(vec![("Font", Value::Dictionary(dict(vec![("F1", Value::Integer(i as i64))])))]))),
        ])));
        doc.add_object(Value::Stream(Stream {
            dict: Dictionary::new(),
            content: StreamContent::Bytes(format!("BT (page {}) Tj ET", i + 1).into_bytes()),
        }));
        pages.push(page_id);
    }
    let kids = Value::Array(pages.iter().map(|p| Value::Reference(*p)).collect());
    doc.objects[tree.0 as usize] = Some(Value::Dictionary(dict(vec![
        ("Type", Value::Name("Pages".to_string())),
        ("Kids", kids),
        ("Count", Value::Integer(n as i64)),
    ])));
    (doc, pages)
}

fn page_dict(doc: &Document, id: ObjectId) -> &Dictionary {
    match doc.get_object(id) {
        Some(Value::Dictionary(d)) => d,
        other => panic!("not a page: {:?}", other),
    }
}

fn stream_ops(doc: &Document, v: &Value) -> Vec<(String, Vec<Value>)> {
    let id = match v {
        Value::Reference(id) => *id,
        other => panic!("not a reference: {:?}", other),
    };
    match doc.get_object(id) {
        Some(Value::Stream(Stream { content: StreamContent::Operations(ops), .. })) => {
            ops.iter().map(|o| (o.operator.clone(), o.operands.iter().map(copy).collect())).collect()
        }
        other => panic!("not an operations stream: {:?}", other),
    }
}

fn copy(v: &Value) -> Value {
    cropped::object::duplicate(v)
}

#[test]
fn three_page_scenario() {
    let (mut doc, pages) = manuscript(3);
    let canvas = Size::points(595, 842);
    let trim = Size::points(432, 648);
    let font = GlyphWidth { advance: 500, units_per_em: 1000 };
    for (i, page) in pages.iter().enumerate() {
        stamp_page(&mut doc, *page, canvas, trim, ObjectId(99), font, b"2025-01-01 00:00:00 UTC", (i + 1) as u64).unwrap();
    }
    for (i, page) in pages.iter().enumerate() {
        let d = page_dict(&doc, *page);
        assert_eq!(d.get("MediaBox"), Some(&ints(&[0, 0, 595, 842])));
        let contents = match d.get("Contents") {
            Some(Value::Array(c)) => c,
            other => panic!("contents not an array: {:?}", other),
        };
        assert_eq!(contents.len(), 3);
        assert_eq!(contents[1], Value::Reference(ObjectId(page.0 + 1)));
        let start = stream_ops(&doc, &contents[0]);
        assert_eq!(start[0], ("Do".to_string(), vec![Value::Name("Overlay".to_string())]));
        assert_eq!(start[1].0, "q");
        assert_eq!(start[2].0, "cm");
        assert_eq!(number(&start[2].1[4]), 81.5);
        assert_eq!(number(&start[2].1[5]), 97.0);
        let end = stream_ops(&doc, &contents[2]);
        assert_eq!(end, vec![("Q".to_string(), vec![])]);
        // The page's own resources stay; the overlay is bound under XObject.
        let res = match d.get("Resources") {
            Some(Value::Dictionary(r)) => r,
            other => panic!("resources: {:?}", other),
        };
        assert_eq!(res.get("Font"), Some(&Value::Dictionary(dict(vec![("F1", Value::Integer(i as i64))]))));
        let xt = match res.get("XObject") {
            Some(Value::Reference(id)) => page_dict(&doc, *id),
            other => panic!("xobject table: {:?}", other),
        };
        assert!(matches!(xt.get("Overlay"), Some(Value::Reference(_))));
    }
}

#[test]
fn page_content_bytes_are_untouched() {
    let (mut doc, pages) = manuscript(2);
    let before: Vec<Option<Value>> = doc.objects.iter().map(|o| o.as_ref().map(copy)).collect();
    let canvas = Size::points(595, 842);
    let trim = Size::points(432, 648);
    let font = GlyphWidth { advance: 500, units_per_em: 1000 };
    stamp_page(&mut doc, pages[0], canvas, trim, ObjectId(99), font, b"t", 1).unwrap();
    for i in 0..before.len() {
        if i as u32 != pages[0].0 {
            assert_eq!(doc.objects[i], before[i]);
        }
    }
    assert_eq!(
        doc.objects[3],
        Some(Value::Stream(Stream { dict: Dictionary::new(), content: StreamContent::Bytes(b"BT (page 1) Tj ET".to_vec()) }))
    );
}

#[test]
fn array_contents_are_spliced_in_order() {
    let mut doc = Document::new();
    let page = doc.add_object(Value::Dictionary(dict(vec![
        ("MediaBox", Value::Array(vec![Value::Integer(0), Value::Integer(0), Value::Real(Decimal { mantissa: 4325, scale: 1 }), Value::Integer(648)])),
        ("Contents", Value::Array(vec![Value::Reference(ObjectId(5)), Value::Reference(ObjectId(6))])),
    ])));
    stamp_page(&mut doc, page, Size::points(595, 842), Size::points(432, 648), ObjectId(9), GlyphWidth { advance: 1, units_per_em: 2 }, b"t", 1).unwrap();
    let d = page_dict(&doc, page);
    let contents = match d.get("Contents") {
        Some(Value::Array(c)) => c,
        other => panic!("{:?}", other),
    };
    assert_eq!(contents.len(), 4);
    assert_eq!(contents[1], Value::Reference(ObjectId(5)));
    assert_eq!(contents[2], Value::Reference(ObjectId(6)));
    let start = stream_ops(&doc, &contents[0]);
    assert_eq!(number(&start[2].1[4]), 81.25);
}

#[test]
fn missing_media_box_is_an_error() {
    let mut doc = Document::new();
    let page = doc.add_object(Value::Dictionary(dict(vec![("Contents", Value::Reference(ObjectId(5)))])));
    let before_len = doc.objects.len();
    let r = stamp_page(&mut doc, page, Size::points(595, 842), Size::points(432, 648), ObjectId(9), GlyphWidth { advance: 1, units_per_em: 2 }, b"t", 1);
    assert_eq!(r, Err(Error::BadMediaBox(page)));
    assert_eq!(doc.objects.len(), before_len);
}

#[test]
fn non_page_is_an_error() {
    let mut doc = Document::new();
    let id = doc.add_object(Value::Integer(3));
    let r = stamp_page(&mut doc, id, Size::points(595, 842), Size::points(432, 648), ObjectId(9), GlyphWidth { advance: 1, units_per_em: 2 }, b"t", 1);
    assert_eq!(r, Err(Error::NotAPage(id)));
    let r = stamp_page(&mut doc, ObjectId(40), Size::points(595, 842), Size::points(432, 648), ObjectId(9), GlyphWidth { advance: 1, units_per_em: 2 }, b"t", 1);
    assert_eq!(r, Err(Error::NotAPage(ObjectId(40))));
}

#[test]
fn font_is_embedded_from_its_metrics() {
    let mut doc = Document::new();
    let data = tiny_font(2048);
    let (font_id, gw) = embed_font(&mut doc, data.clone()).unwrap();
    assert_eq!(font_id, ObjectId(3));
    assert_eq!(gw, GlyphWidth { advance: 600, units_per_em: 2048 });
    assert_eq!(
        doc.objects[1],
        Some(Value::Stream(Stream {
            dict: dict(vec![("Length1", Value::Integer(data.len() as i64))]),
            content: StreamContent::Bytes(data),
        }))
    );
    let desc = page_dict(&doc, ObjectId(2));
    assert_eq!(desc.get("FontBBox"), Some(&ints(&[-10, -200, 510, 800])));
    assert_eq!(desc.get("Ascent"), Some(&Value::Integer(780)));
    assert_eq!(desc.get("Descent"), Some(&Value::Integer(-220)));
    assert_eq!(desc.get("CapHeight"), Some(&Value::Integer(700)));
    let font = page_dict(&doc, font_id);
    assert_eq!(font.get("FontDescriptor"), Some(&Value::Reference(ObjectId(2))));
    match font.get("Widths") {
        Some(Value::Array(w)) => {
            assert_eq!(w.len(), 95);
            assert!(w.iter().all(|x| *x == Value::Integer(600)));
        }
        other => panic!("{:?}", other),
    }
}

#[test]
fn unreadable_font_is_an_error() {
    let mut doc = Document::new();
    assert_eq!(embed_font(&mut doc, b"not a font".to_vec()), Err(Error::UnreadableFont));
    assert_eq!(doc.objects.len(), 1);
}

fn combined(n: usize) -> (Document, Vec<ObjectId>, Value) {
    let (mut doc, pages) = manuscript(n);
    let tree_before = copy(doc.objects[1].as_ref().unwrap());
    combine(&mut doc, &pages, tiny_font(1000), Size::points(595, 842), Size::points(432, 648), b"now").unwrap();
    (doc, pages, tree_before)
}

fn overlay_number(doc: &Document, page: ObjectId) -> Vec<u8> {
    let d = page_dict(doc, page);
    let res = match d.get("Resources") {
        Some(Value::Dictionary(r)) => r,
        other => panic!("{:?}", other),
    };
    let xt = match res.get("XObject") {
        Some(Value::Reference(id)) => page_dict(doc, *id),
        other => panic!("{:?}", other),
    };
    let ops = stream_ops(doc, xt.get("Overlay").unwrap());
    match &ops[34].1[0] {
        Value::String(b) => b.clone(),
        other => panic!("{:?}", other),
    }
}

#[test]
fn combine_keeps_page_order_for_zero_pages() {
    let (doc, pages, tree_before) = combined(0);
    assert!(pages.is_empty());
    assert_eq!(doc.objects[1], Some(tree_before));
    assert_eq!(doc.objects.len(), 2 + 3);
}

#[test]
fn combine_keeps_page_order_for_one_page() {
    let (doc, pages, tree_before) = combined(1);
    assert_eq!(doc.objects[1], Some(tree_before));
    assert_eq!(overlay_number(&doc, pages[0]), b"1".to_vec());
}

#[test]
fn combine_keeps_page_order_for_five_pages() {
    let (doc, pages, tree_before) = combined(5);
    assert_eq!(doc.objects[1], Some(tree_before));
    for (i, page) in pages.iter().enumerate() {
        assert_eq!(overlay_number(&doc, *page), format!("{}", i + 1).into_bytes());
    }
    assert_eq!(doc.objects.len(), 12 + 3 + 5 * 5);
}

#[test]
fn combine_stops_on_a_bad_page() {
    let (mut doc, mut pages) = manuscript(2);
    pages.push(ObjectId(1));
    let r = combine(&mut doc, &pages, tiny_font(1000), Size::points(595, 842), Size::points(432, 648), b"now");
    assert_eq!(r, Err(Error::BadMediaBox(ObjectId(1))));
}

#[test]
fn combine_needs_a_font() {
    let (mut doc, pages) = manuscript(1);
    let r = combine(&mut doc, &pages, vec![], Size::points(595, 842), Size::points(432, 648), b"now");
    assert_eq!(r, Err(Error::UnreadableFont));
}

#[test]
fn offset_rederived_from_rewritten_media_box() {
    let mut doc = Document::new();
    let page = doc.add_object(Value::Dictionary(dict(vec![
        ("MediaBox", ints(&[0, 0, 500, 700])),
        ("Contents", Value::Reference(ObjectId(7))),
    ])));
    stamp_page(&mut doc, page, Size::points(595, 842), Size::points(432, 648), ObjectId(9), GlyphWidth { advance: 1, units_per_em: 2 }, b"t", 1).unwrap();
    let d = page_dict(&doc, page);
    let (canvas_w, canvas_h) = match d.get("MediaBox") {
        Some(Value::Array(mb)) => (number(&mb[2]) - number(&mb[0]), number(&mb[3]) - number(&mb[1])),
        other => panic!("{:?}", other),
    };
    let contents = match d.get("Contents") {
        Some(Value::Array(c)) => c,
        other => panic!("{:?}", other),
    };
    let start = stream_ops(&doc, &contents[0]);
    let (x, y) = (number(&start[2].1[4]), number(&start[2].1[5]));
    assert_eq!((x, y), (47.5, 71.0));
    assert_eq!(x + 500.0 + x, canvas_w);
    assert_eq!(y + 700.0 + y, canvas_h);
}

#[test]
fn page_without_resources_gets_the_overlay_binding() {
    let mut doc = Document::new();
    let page = doc.add_object(Value::Dictionary(dict(vec![
        ("MediaBox", ints(&[0, 0, 432, 648])),
        ("Contents", Value::Reference(ObjectId(30))),
    ])));
    stamp_page(&mut doc, page, Size::points(595, 842), Size::points(432, 648), ObjectId(9), GlyphWidth { advance: 1, units_per_em: 2 }, b"t", 1).unwrap();
    let d = page_dict(&doc, page);
    let res = match d.get("Resources") {
        Some(Value::Dictionary(r)) => r,
        other => panic!("{:?}", other),
    };
    assert_eq!(res.entries.len(), 1);
    let xt = match res.get("XObject") {
        Some(Value::Reference(id)) => page_dict(&doc, *id),
        other => panic!("{:?}", other),
    };
    assert_eq!(xt.entries.len(), 1);
    match d.get("Contents") {
        Some(Value::Array(c)) => assert_eq!(c.len(), 3),
        other => panic!("{:?}", other),
    }
}

#[test]
fn indirect_resources_are_resolved_and_copied() {
    let mut doc = Document::new();
    let fonts = doc.add_object(Value::Dictionary(dict(vec![("F1", Value::Integer(1))])));
    let xobjects = doc.add_object(Value::Dictionary(dict(vec![("Im1", Value::Integer(2))])));
    let res = doc.add_object(Value::Dictionary(dict(vec![
        ("Font", Value::Reference(fonts)),
        ("XObject", Value::Reference(xobjects)),
    ])));
    let page = doc.add_object(Value::Dictionary(dict(vec![
        ("MediaBox", ints(&[0, 0, 432, 648])),
        ("Contents", Value::Reference(ObjectId(30))),
        ("Resources", Value::Reference(res)),
    ])));
    stamp_page(&mut doc, page, Size::points(595, 842), Size::points(432, 648), ObjectId(9), GlyphWidth { advance: 1, units_per_em: 2 }, b"t", 1).unwrap();
    let d = page_dict(&doc, page);
    let new_res = match d.get("Resources") {
        Some(Value::Dictionary(r)) => r,
        other => panic!("{:?}", other),
    };
    assert_eq!(new_res.get("Font"), Some(&Value::Reference(fonts)));
    let xt = match new_res.get("XObject") {
        Some(Value::Reference(id)) => page_dict(&doc, *id),
        other => panic!("{:?}", other),
    };
    assert_eq!(xt.get("Im1"), Some(&Value::Integer(2)));
    assert!(matches!(xt.get("Overlay"), Some(Value::Reference(_))));
    // The shared tables themselves are left as they were.
    assert_eq!(page_dict(&doc, xobjects).entries.len(), 1);
}

#[test]
fn page_without_contents_is_an_error() {
    let mut doc = Document::new();
    let page = doc.add_object(Value::Dictionary(dict(vec![("MediaBox", ints(&[0, 0, 432, 648]))])));
    let before_len = doc.objects.len();
    let r = stamp_page(&mut doc, page, Size::points(595, 842), Size::points(432, 648), ObjectId(9), GlyphWidth { advance: 1, units_per_em: 2 }, b"t", 1);
    assert_eq!(r, Err(Error::MissingContents(page)));
    assert_eq!(doc.objects.len(), before_len);
    let other = doc.add_object(Value::Dictionary(dict(vec![
        ("MediaBox", ints(&[0, 0, 432, 648])),
        ("Contents", Value::Integer(4)),
    ])));
    let r = stamp_page(&mut doc, other, Size::points(595, 842), Size::points(432, 648), ObjectId(9), GlyphWidth { advance: 1, units_per_em: 2 }, b"t", 1);
    assert_eq!(r, Err(Error::MissingContents(other)));
}

#[test]
fn existing_overlay_binding_is_kept() {
    let mut doc = Document::new();
    let page = doc.add_object(Value::Dictionary(dict(vec![
        ("MediaBox", ints(&[0, 0, 432, 648])),
        ("Contents", Value::Reference(ObjectId(30))),
        ("Resources", Value::Dictionary(dict(vec![(
            "XObject",
            Value::Dictionary(dict(vec![("Overlay", Value::Integer(1)), ("Overlay_", Value::Integer(2))])),
        )]))),
    ])));
    stamp_page(&mut doc, page, Size::points(595, 842), Size::points(432, 648), ObjectId(9), GlyphWidth { advance: 1, units_per_em: 2 }, b"t", 1).unwrap();
    let d = page_dict(&doc, page);
    let res = match d.get("Resources") {
        Some(Value::Dictionary(r)) => r,
        other => panic!("{:?}", other),
    };
    let xt = match res.get("XObject") {
        Some(Value::Reference(id)) => page_dict(&doc, *id),
        other => panic!("{:?}", other),
    };
    assert_eq!(xt.get("Overlay"), Some(&Value::Integer(1)));
    assert_eq!(xt.get("Overlay_"), Some(&Value::Integer(2)));
    assert!(matches!(xt.get("Overlay__"), Some(Value::Reference(_))));
    let contents = match d.get("Contents") {
        Some(Value::Array(c)) => c,
        other => panic!("{:?}", other),
    };
    let start = stream_ops(&doc, &contents[0]);
    assert_eq!(start[0], ("Do".to_string(), vec![Value::Name("Overlay__".to_string())]));
}

#[test]
fn combine_stops_on_a_page_without_contents() {
    let (mut doc, pages) = manuscript(2);
    if let Some(Some(Value::Dictionary(d))) = doc.objects.get_mut(pages[1].0 as usize) {
        d.entries.retain(|(k, _)| k != "Contents");
    }
    let r = combine(&mut doc, &pages, tiny_font(1000), Size::points(595, 842), Size::points(432, 648), b"now");
    assert_eq!(r, Err(Error::MissingContents(pages[1])));
}
