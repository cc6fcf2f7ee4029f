//! The stamp strategy: each page of a document is widened to the canvas, its
//! content centered and left untouched, and an overlay drawn around it.
use vstd::prelude::*;
use crate::geometry::{Size, center_offset, coordinate, length_number, read_coordinate, scaled};
use crate::fonts::{advance_of, embed_font, font_embedded, parsed_metrics};
use crate::object::{
    Dictionary, Document, Error, ObjectId, Operation, Stream, StreamContent, Value, copy_string, deref_opt,
    duplicate, entry, identity, lemma_key_len, lookup, mapped, max_key_len, name_value, push_str,
};
use crate::overlay::{
    FOOTER_MARGIN, GlyphWidth, bare_op, crop_marks_drawn, decimal_digits, generate_crop_marks,
    generate_datetime, generate_page_number, make_op, numeric_op, page_number_x, text_drawn,
};

verus! {

/// `a` is a copy of `b`.
pub open spec fn same(a: Value, b: Value) -> bool {
    mapped(a, b, identity())
}

/// Both absent, or both present and copies.
pub open spec fn same_opt(a: Option<Value>, b: Option<Value>) -> bool {
    match (a, b) {
        (None, None) => true,
        (Some(x), Some(y)) => same(x, y),
        _ => false,
    }
}

/// Entries that match one for one read the same under every key.
pub proof fn lemma_lookup_same(x: Seq<(String, Value)>, y: Seq<(String, Value)>, k: Seq<char>)
    requires
        x.len() == y.len(),
        forall|i: int| 0 <= i < y.len() ==> #[trigger] x[i].0@ == y[i].0@,
        forall|i: int| 0 <= i < y.len() ==> #[trigger] mapped(x[i].1, y[i].1, identity()),
    ensures
        same_opt(lookup(x, k), lookup(y, k)),
    decreases y.len(),
{
    if y.len() > 0 {
        assert(mapped(x[0].1, y[0].1, identity()));
        assert forall|i: int| 0 <= i < y.drop_first().len() implies #[trigger] mapped(x.drop_first()[i].1, y.drop_first()[i].1, identity()) by {
            assert(mapped(x[i + 1].1, y[i + 1].1, identity()));
        }
        assert forall|i: int| 0 <= i < y.drop_first().len() implies #[trigger] x.drop_first()[i].0@ == y.drop_first()[i].0@ by {
            assert(x[i + 1].0@ == y[i + 1].0@);
        }
        lemma_lookup_same(x.drop_first(), y.drop_first(), k);
    }
}

/// The dictionary that `v` is, or that it references in `doc`.
pub open spec fn resolved_dict(doc: Document, v: Option<Value>) -> Option<Dictionary> {
    match v {
        Some(Value::Dictionary(d)) => Some(d),
        Some(Value::Reference(id)) => if doc.resolves(id) {
            match doc.spec_object(id) {
                Value::Dictionary(d) => Some(d),
                _ => None,
            }
        } else {
            None
        },
        _ => None,
    }
}

/// What a table that may be absent holds under `k`.
pub open spec fn get_in(d: Option<Dictionary>, k: Seq<char>) -> Option<Value> {
    match d {
        Some(t) => t.spec_get(k),
        None => None,
    }
}

/// The dictionary that `v` is or references.
fn resolve_dict<'a>(doc: &'a Document, v: Option<&'a Value>) -> (r: Option<&'a Dictionary>)
    ensures
        r == match resolved_dict(*doc, deref_opt(v)) {
            Some(d) => Some(&d),
            None => None::<&Dictionary>,
        },
{
    match v {
        Some(Value::Dictionary(d)) => Some(d),
        Some(Value::Reference(id)) => match doc.get_object(*id) {
            Some(Value::Dictionary(d)) => Some(d),
            _ => None,
        },
        _ => None,
    }
}

/// A copy of a dictionary.
pub fn copy_dict(d: &Dictionary) -> (r: Dictionary)
    ensures
        forall|k: Seq<char>| #[trigger] same_opt(r.spec_get(k), d.spec_get(k)),
{
    let mut out: Vec<(String, Value)> = Vec::new();
    let mut i: usize = 0;
    while i < d.entries.len()
        invariant
            0 <= i <= d.entries@.len(),
            out@.len() == i,
            forall|j: int| 0 <= j < i ==> #[trigger] out@[j].0@ == d.entries@[j].0@,
            forall|j: int| 0 <= j < i ==> #[trigger] mapped(out@[j].1, d.entries@[j].1, identity()),
        decreases d.entries@.len() - i,
    {
        let key = crate::object::copy_string(&d.entries[i].0);
        let v = duplicate(&d.entries[i].1);
        let ghost pair = (key, v);
        out.push((key, v));
        assert(out@[i as int] == pair);
        i = i + 1;
    }
    let r = Dictionary { entries: out };
    proof {
        assert forall|k: Seq<char>| #[trigger] same_opt(r.spec_get(k), d.spec_get(k)) by {
            assert(forall|j: int| 0 <= j < d.entries@.len() ==> mapped(out@[j].1, d.entries@[j].1, identity()));
            assert(forall|j: int| 0 <= j < d.entries@.len() ==> out@[j].0@ == d.entries@[j].0@);
            lemma_lookup_same(out@, d.entries@, k);
        }
    }
    r
}

/// What a borrowed table that may be absent holds under `k`.
pub open spec fn get_in_ref(d: Option<&Dictionary>, k: Seq<char>) -> Option<Value> {
    match d {
        Some(t) => t.spec_get(k),
        None => None,
    }
}

/// A copy of a dictionary that may be absent, empty where it is.
fn copy_or_empty(d: Option<&Dictionary>) -> (r: Dictionary)
    ensures
        forall|k: Seq<char>| #[trigger] same_opt(r.spec_get(k), get_in_ref(d, k)),
{
    match d {
        Some(x) => copy_dict(x),
        None => Dictionary::new(),
    }
}

/// The width and height of a page's MediaBox, in units of 1/10000 point.
pub open spec fn media_size(page: Dictionary) -> Option<(int, int)> {
    match page.spec_get("MediaBox"@) {
        Some(Value::Array(a)) => if a.len() == 4 && coordinate(a@[0]) is Some && coordinate(a@[1]) is Some
            && coordinate(a@[2]) is Some && coordinate(a@[3]) is Some {
            Some(
                (
                    coordinate(a@[2])->0 - coordinate(a@[0])->0,
                    coordinate(a@[3])->0 - coordinate(a@[1])->0,
                ),
            )
        } else {
            None
        },
        _ => None,
    }
}

/// Reads the size of a page's MediaBox.
fn read_media_size(page: &Dictionary) -> (r: Option<(i64, i64)>)
    ensures
        r matches Some((w, h)) ==> media_size(*page) == Some((w as int, h as int)),
        r is None ==> media_size(*page) is None,
{
    match page.get("MediaBox") {
        Some(Value::Array(a)) => {
            if a.len() != 4 {
                return None;
            }
            let x1 = read_coordinate(&a[0]);
            let y1 = read_coordinate(&a[1]);
            let x2 = read_coordinate(&a[2]);
            let y2 = read_coordinate(&a[3]);
            match (x1, y1, x2, y2) {
                (Some(x1), Some(y1), Some(x2), Some(y2)) => Some((x2 - x1, y2 - y1)),
                _ => None,
            }
        },
        _ => None,
    }
}

/// `ops` draws the overlay of page `page_num`: the crop marks around the trim
/// box centered on the canvas, the timestamp and the page number, both in the
/// font named `F1`.
pub open spec fn overlay_drawn(
    ops: Seq<Operation>,
    canvas: Size,
    trim: Size,
    timestamp: Seq<u8>,
    page_num: nat,
    gw: GlyphWidth,
) -> bool {
    &&& ops.len() == 36
    &&& crop_marks_drawn(
        ops.subrange(0, 26),
        center_offset(canvas.width as int, trim.width as int),
        center_offset(canvas.height as int, trim.height as int),
        trim.width * 10,
        trim.height * 10,
    )
    &&& text_drawn(ops.subrange(26, 31), "F1"@, timestamp, FOOTER_MARGIN as int, FOOTER_MARGIN as int)
    &&& text_drawn(
        ops.subrange(31, 36),
        "F1"@,
        decimal_digits(page_num),
        page_number_x(canvas.width as int, decimal_digits(page_num).len() as int, gw),
        FOOTER_MARGIN as int,
    )
}

/// `d` binds `key` to the box `[0 0 width height]` of the canvas.
pub open spec fn has_canvas_box(d: Dictionary, key: Seq<char>, canvas: Size) -> bool {
    exists|b: Vec<Value>|
        #![auto]
        d.spec_has(key, Value::Array(b)) && b.len() == 4 && scaled(b@[0], 4) == Some(0int) && scaled(b@[1], 4)
            == Some(0int) && scaled(b@[2], 4) == Some(canvas.width as int) && scaled(b@[3], 4) == Some(
            canvas.height as int,
        )
}

/// `v` is a font table that binds only `F1`, to `font_id`.
pub open spec fn font_table(v: Option<Value>, font_id: ObjectId) -> bool {
    v matches Some(Value::Dictionary(t)) && t.entries.len() == 1 && t.spec_has("F1"@, Value::Reference(font_id))
}

/// `form` is the overlay of page `page_num`: a form as large as the canvas
/// whose own resources hold only the font table `fonts`, drawing the overlay.
pub open spec fn overlay_form(
    form: Stream,
    canvas: Size,
    trim: Size,
    timestamp: Seq<u8>,
    page_num: nat,
    gw: GlyphWidth,
    fonts: ObjectId,
) -> bool {
    &&& form.dict.entries.len() == 4
    &&& form.dict.spec_has_name("Type"@, "XObject"@)
    &&& form.dict.spec_has_name("Subtype"@, "Form"@)
    &&& has_canvas_box(form.dict, "BBox"@, canvas)
    &&& exists|res: Dictionary|
        #![auto]
        form.dict.spec_has("Resources"@, Value::Dictionary(res)) && res.entries.len() == 1 && res.spec_has(
            "Font"@,
            Value::Reference(fonts),
        )
    &&& form.content matches StreamContent::Operations(ops) && overlay_drawn(ops@, canvas, trim, timestamp, page_num, gw)
}

/// A box `[0 0 width height]` for the canvas.
fn canvas_box(canvas: Size) -> (r: Vec<Value>)
    ensures
        r.len() == 4,
        scaled(r@[0], 4) == Some(0int),
        scaled(r@[1], 4) == Some(0int),
        scaled(r@[2], 4) == Some(canvas.width as int),
        scaled(r@[3], 4) == Some(canvas.height as int),
{
    let mut b: Vec<Value> = Vec::new();
    b.push(length_number(0));
    b.push(length_number(0));
    b.push(length_number(canvas.width));
    b.push(length_number(canvas.height));
    b
}

/// Builds the form that draws the overlay of one page, with resources of its
/// own that bind the footer font to the name `F1`; returns its identifier.
pub fn create_overlay_xobject(
    doc: &mut Document,
    page_num: u64,
    canvas: Size,
    trim: Size,
    font_id: ObjectId,
    gw: GlyphWidth,
    timestamp: &[u8],
) -> (r: ObjectId)
    requires
        old(doc).objects@.len() + 2 < u32::MAX,
        canvas.valid(),
        trim.valid(),
        gw.units_per_em > 0,
    ensures
        final(doc).objects@.len() == old(doc).objects@.len() + 2,
        forall|i: int| 0 <= i < old(doc).objects@.len() ==> final(doc).objects@[i] == old(doc).objects@[i],
        final(doc).root == old(doc).root,
        final(doc).info == old(doc).info,
        r.index() == old(doc).objects@.len() + 1,
        font_table(final(doc).objects@[r.index() - 1], font_id),
        final(doc).objects@[r.index()] matches Some(Value::Stream(form)) && overlay_form(
            form,
            canvas,
            trim,
            timestamp@,
            page_num as nat,
            gw,
            ObjectId((r.index() - 1) as u32),
        ),
{
    let trim_x = (canvas.width - trim.width) * 5;
    let trim_y = (canvas.height - trim.height) * 5;
    let mut ops = generate_crop_marks(trim_x, trim_y, trim.width * 10, trim.height * 10);
    let mut date_ops = generate_datetime(timestamp, "F1");
    let mut number_ops = generate_page_number(page_num, canvas.width, "F1", gw);
    let ghost crop = ops@;
    let ghost date = date_ops@;
    let ghost number = number_ops@;
    ops.append(&mut date_ops);
    ops.append(&mut number_ops);
    assert(ops@.subrange(0, 26) =~= crop);
    assert(ops@.subrange(26, 31) =~= date);
    assert(ops@.subrange(31, 36) =~= number);
    let mut font_table: Vec<(String, Value)> = Vec::new();
    font_table.push(entry("F1", Value::Reference(font_id)));
    let fonts = Dictionary { entries: font_table };
    assert(fonts.entries@[0].0@ == "F1"@);
    let font_table_id = doc.add_object(Value::Dictionary(fonts));
    let mut resources: Vec<(String, Value)> = Vec::new();
    resources.push(entry("Font", Value::Reference(font_table_id)));
    let bbox = canvas_box(canvas);
    let ghost bbox_g = bbox;
    let res_dict = Dictionary { entries: resources };
    assert(res_dict.entries@[0].0@ == "Font"@);
    let ghost res_ghost = res_dict;
    let mut dict: Vec<(String, Value)> = Vec::new();
    dict.push(entry("Type", name_value("XObject")));
    dict.push(entry("Subtype", name_value("Form")));
    dict.push(entry("BBox", Value::Array(bbox)));
    dict.push(entry("Resources", Value::Dictionary(res_dict)));
    let form_dict = Dictionary { entries: dict };
    assert(form_dict.entries@[0].0@ == "Type"@ && form_dict.entries@[1].0@ == "Subtype"@);
    assert(form_dict.entries@[2].0@ == "BBox"@ && form_dict.entries@[3].0@ == "Resources"@);
    assert(form_dict.spec_has("BBox"@, Value::Array(bbox_g)));
    assert(form_dict.spec_has("Resources"@, Value::Dictionary(res_ghost)));
    let ghost ops_g = ops;
    let form = Stream { dict: form_dict, content: StreamContent::Operations(ops) };
    proof {
        assert(overlay_drawn(ops_g@, canvas, trim, timestamp@, page_num as nat, gw));
        assert(has_canvas_box(form.dict, "BBox"@, canvas));
        assert(form.dict.entries@[0].1 matches Value::Name(s) && s@ == "XObject"@);
        assert(form.dict.spec_has_name("Type"@, "XObject"@));
        assert(form.dict.entries@[1].1 matches Value::Name(s) && s@ == "Form"@);
        assert(form.dict.spec_has_name("Subtype"@, "Form"@));
        assert(res_ghost.spec_has("Font"@, Value::Reference(font_table_id)));
    }
    let id = doc.add_object(Value::Stream(form));
    assert(font_table_id == ObjectId((id.index() - 1) as u32));
    id
}

/// Read back from a stamped page, the centering is the same: the offset that
/// the start stream applies equals the one derived from the rewritten MediaBox
/// and the content's own size, and it leaves equal margins on both sides.
pub proof fn lemma_stamped_offset_rederived(mb: Seq<Value>, content: int, offset: int, canvas: int)
    requires
        mb.len() == 4,
        scaled(mb[0], 4) == Some(0int),
        scaled(mb[2], 4) == Some(canvas),
        offset == center_offset(canvas, content),
    ensures
        offset == center_offset(scaled(mb[2], 4)->0 - scaled(mb[0], 4)->0, content),
        offset == (scaled(mb[2], 4)->0 - scaled(mb[0], 4)->0) * 10 - (offset + content * 10),
{
    crate::geometry::lemma_center_symmetric(canvas, content);
}

/// The `Contents` of a page as a list: one reference, the elements of an array, or nothing.
pub open spec fn contents_list(v: Option<Value>) -> Seq<Value> {
    match v {
        Some(Value::Reference(r)) => seq![Value::Reference(r)],
        Some(Value::Array(a)) => a@,
        _ => seq![],
    }
}

/// The page has `Contents` that is a stream reference or an array of them.
pub open spec fn has_contents(page: Dictionary) -> bool {
    page.spec_get("Contents"@) matches Some(v) && (v is Reference || v is Array)
}

/// `ops` opens a stamped page: it draws the form named `name`, saves the
/// graphics state and translates by `(cx, cy)` (units of 1/100000 point).
pub open spec fn start_drawn(ops: Seq<Operation>, name: Seq<char>, cx: int, cy: int) -> bool {
    &&& ops.len() == 3
    &&& ops[0].operator@ == "Do"@ && ops[0].operands.len() == 1
    &&& ops[0].operands@[0] matches Value::Name(n) && n@ == name
    &&& bare_op(ops[1], "q"@)
    &&& numeric_op(ops[2], "cm"@, seq![100000, 0, 0, 100000, cx, cy])
}

/// A copy of the `Contents` of a page as a list.
fn copy_contents(v: Option<&Value>) -> (r: Vec<Value>)
    ensures
        r@.len() == contents_list(deref_opt(v)).len(),
        forall|i: int| 0 <= i < r@.len() ==> #[trigger] same(r@[i], contents_list(deref_opt(v))[i]),
{
    let mut out: Vec<Value> = Vec::new();
    match v {
        Some(Value::Reference(id)) => {
            out.push(Value::Reference(*id));
        },
        Some(Value::Array(a)) => {
            let mut i: usize = 0;
            while i < a.len()
                invariant
                    0 <= i <= a@.len(),
                    out@.len() == i,
                    forall|j: int| 0 <= j < i ==> #[trigger] same(out@[j], a@[j]),
                decreases a@.len() - i,
            {
                out.push(duplicate(&a[i]));
                i = i + 1;
            }
        },
        _ => {},
    }
    out
}

/// A stream of drawing operations with an empty dictionary.
fn operations_stream(ops: Vec<Operation>) -> (r: Value)
    ensures
        r matches Value::Stream(st) && st.content == StreamContent::Operations(ops),
{
    Value::Stream(Stream { dict: Dictionary::new(), content: StreamContent::Operations(ops) })
}

/// A name that `table` does not bind: `Overlay`, followed by as many
/// underscores as it takes.
fn unused_name(table: Option<&Dictionary>) -> (r: String)
    ensures
        get_in_ref(table, r@) is None,
{
    let mut name = "Overlay".to_owned();
    match table {
        None => name,
        Some(t) => {
            let mut taken: bool = match t.position(name.as_str()) {
                Some(j) => {
                    proof {
                        lemma_key_len(t.entries@, j as int);
                    }
                    true
                },
                None => false,
            };
            while taken
                invariant
                    !taken ==> t.spec_get(name@) is None,
                    taken ==> name@.len() <= max_key_len(t.entries@),
                decreases max_key_len(t.entries@) + 1 - name@.len(),
            {
                proof {
                    reveal_strlit("_");
                }
                push_str(&mut name, "_");
                taken = match t.position(name.as_str()) {
                    Some(j) => {
                        proof {
                            lemma_key_len(t.entries@, j as int);
                        }
                        true
                    },
                    None => false,
                };
            }
            name
        },
    }
}

/// Object `id` of `doc` is a page dictionary with a usable MediaBox and a
/// `Contents` that is a stream reference or an array.
pub open spec fn stampable(doc: Document, id: ObjectId) -> bool {
    doc.resolves(id) && match doc.spec_object(id) {
        Value::Dictionary(d) => media_size(d) is Some && has_contents(d),
        _ => false,
    }
}

/// What stamping page `page_id` of `old` leaves in `new`, whose five new
/// objects start at the end of `old`: the overlay's font table and form, the
/// page's XObject table, and the start and end streams.
///
/// The XObject table is the page's own (resolved) plus the overlay under a
/// name it did not bind, which the start stream draws. The page's MediaBox is
/// the canvas, its resources are its own with that table as XObject, and its
/// `Contents` is the start stream, its own content and the end stream. Every
/// other key of the page is kept.
pub open spec fn stamp_effect(
    old: Document,
    new: Document,
    page_id: ObjectId,
    canvas: Size,
    trim: Size,
    font_id: ObjectId,
    gw: GlyphWidth,
    timestamp: Seq<u8>,
    page_num: nat,
) -> bool {
    let n = old.objects@.len() as int;
    let page = old.spec_object(page_id)->Dictionary_0;
    let (w, h) = media_size(page)->0;
    let resources = resolved_dict(old, page.spec_get("Resources"@));
    let xobjects = resolved_dict(old, get_in(resources, "XObject"@));
    let cx = center_offset(canvas.width as int, w);
    let cy = center_offset(canvas.height as int, h);
    let contents = contents_list(page.spec_get("Contents"@));
    &&& new.objects@.len() >= n + 5
    &&& font_table(new.objects@[n], font_id)
    &&& new.objects@[n + 1] matches Some(Value::Stream(form)) && overlay_form(
        form,
        canvas,
        trim,
        timestamp,
        page_num,
        gw,
        ObjectId(n as u32),
    )
    &&& new.objects@[n + 2] matches Some(Value::Dictionary(xt)) && (new.objects@[n + 3] matches Some(
        Value::Stream(st),
    ) && (st.content matches StreamContent::Operations(ops) && ops.len() == 3 && ops@[0].operands.len() == 1 && (
    ops@[0].operands@[0] matches Value::Name(nm) && start_drawn(ops@, nm@, cx, cy) && get_in(xobjects, nm@) is None
        && xt.spec_get(nm@) == Some(Value::Reference(ObjectId((n + 1) as u32))) && forall|k: Seq<char>|
        k != nm@ ==> #[trigger] same_opt(xt.spec_get(k), get_in(xobjects, k)))))
    &&& new.objects@[n + 4] matches Some(Value::Stream(st)) && st.content matches StreamContent::Operations(ops)
        && ops.len() == 1 && bare_op(ops@[0], "Q"@)
    &&& new.objects@[page_id.index()] matches Some(Value::Dictionary(nd)) && {
        &&& forall|k: Seq<char>|
            k != "MediaBox"@ && k != "Resources"@ && k != "Contents"@ ==> #[trigger] nd.spec_get(k) == page.spec_get(k)
        &&& nd.spec_get("MediaBox"@) matches Some(Value::Array(mb)) && mb.len() == 4 && scaled(mb@[0], 4) == Some(
            0int,
        ) && scaled(mb@[1], 4) == Some(0int) && scaled(mb@[2], 4) == Some(canvas.width as int) && scaled(mb@[3], 4)
            == Some(canvas.height as int)
        &&& nd.spec_get("Resources"@) matches Some(Value::Dictionary(res)) && res.spec_get("XObject"@) == Some(
            Value::Reference(ObjectId((n + 2) as u32)),
        ) && forall|k: Seq<char>| k != "XObject"@ ==> #[trigger] same_opt(res.spec_get(k), get_in(resources, k))
        &&& nd.spec_get("Contents"@) matches Some(Value::Array(c)) && c.len() == contents.len() + 2 && c@[0]
            == Value::Reference(ObjectId((n + 3) as u32)) && c@[c.len() - 1] == Value::Reference(
            ObjectId((n + 4) as u32),
        ) && forall|i: int| 0 <= i < c.len() - 2 ==> #[trigger] same(c@[i + 1], contents[i])
    }
}

/// Stamps one page: widens its MediaBox to the canvas, wraps its content,
/// untouched, between a stream that draws the overlay and centers the
/// content, and one that restores the graphics state, and binds the overlay
/// form in its resources under a name its XObject table does not yet bind.
///
/// Five objects are appended: the overlay's font table, the overlay form, the
/// page's new XObject table, and the start and end streams. No other object
/// but the page changes. A page without a usable MediaBox, or without
/// `Contents`, is a structural error.
pub fn stamp_page(
    doc: &mut Document,
    page_id: ObjectId,
    canvas: Size,
    trim: Size,
    font_id: ObjectId,
    gw: GlyphWidth,
    timestamp: &[u8],
    page_num: u64,
) -> (r: Result<(), Error>)
    requires
        old(doc).objects@.len() + 5 < u32::MAX,
        canvas.valid(),
        trim.valid(),
        gw.units_per_em > 0,
    ensures
        !(old(doc).resolves(page_id) && old(doc).spec_object(page_id) is Dictionary) <==> r == Err::<(), Error>(
            Error::NotAPage(page_id),
        ),
        (old(doc).resolves(page_id) && (old(doc).spec_object(page_id) matches Value::Dictionary(d) && media_size(d) is None))
            <==> r == Err::<(), Error>(Error::BadMediaBox(page_id)),
        (old(doc).resolves(page_id) && (old(doc).spec_object(page_id) matches Value::Dictionary(d) && media_size(d) is Some
            && !has_contents(d))) <==> r == Err::<(), Error>(Error::MissingContents(page_id)),
        r is Ok <==> stampable(*old(doc), page_id),
        r is Err ==> *final(doc) == *old(doc),
        r is Ok ==> {
            let n = old(doc).objects@.len() as int;
            &&& final(doc).objects@.len() == n + 5
            &&& final(doc).root == old(doc).root
            &&& final(doc).info == old(doc).info
            &&& forall|i: int| 0 <= i < n && i != page_id.index() ==> final(doc).objects@[i] == old(doc).objects@[i]
            &&& stamp_effect(*old(doc), *final(doc), page_id, canvas, trim, font_id, gw, timestamp@, page_num as nat)
        },
{
    let page = match doc.get_object(page_id) {
        Some(Value::Dictionary(d)) => d,
        _ => return Err(Error::NotAPage(page_id)),
    };
    let (w, h) = match read_media_size(page) {
        Some(size) => size,
        None => return Err(Error::BadMediaBox(page_id)),
    };
    match page.get("Contents") {
        Some(Value::Reference(_)) => {},
        Some(Value::Array(_)) => {},
        _ => return Err(Error::MissingContents(page_id)),
    }
    let ghost d0 = *doc;
    let ghost page0 = *page;
    let res_val = page.get("Resources");
    assert(deref_opt(res_val) == page0.spec_get("Resources"@));
    let resources = resolve_dict(doc, res_val);
    assert(forall|k: Seq<char>| #[trigger] get_in_ref(resources, k) == get_in(resolved_dict(d0, page0.spec_get("Resources"@)), k));
    let ghost res_spec = resolved_dict(d0, page0.spec_get("Resources"@));
    let xobjects = match resources {
        Some(res) => {
            let xv = res.get("XObject");
            assert(deref_opt(xv) == get_in(res_spec, "XObject"@));
            resolve_dict(doc, xv)
        },
        None => None,
    };
    let ghost xo_spec = resolved_dict(d0, get_in(res_spec, "XObject"@));
    assert(forall|k: Seq<char>| #[trigger] get_in_ref(xobjects, k) == get_in(xo_spec, k));
    let name = unused_name(xobjects);
    let ghost nm = name@;
    let mut new_resources = copy_or_empty(resources);
    let mut xtable = copy_or_empty(xobjects);
    let mut contents = copy_contents(page.get("Contents"));
    let overlay_id = create_overlay_xobject(doc, page_num, canvas, trim, font_id, gw, timestamp);
    let ghost xt_before = xtable;
    xtable.set(copy_string(&name), Value::Reference(overlay_id));
    assert forall|k: Seq<char>| k != nm implies #[trigger] same_opt(xtable.spec_get(k), get_in(xo_spec, k)) by {
        assert(xtable.spec_get(k) == xt_before.spec_get(k));
        assert(same_opt(xt_before.spec_get(k), get_in_ref(xobjects, k)));
    }
    let ghost xt_g = xtable;
    let ghost after_overlay = doc.objects@;
    let xtable_id = doc.add_object(Value::Dictionary(xtable));
    let ghost res_before = new_resources;
    new_resources.set("XObject".to_owned(), Value::Reference(xtable_id));
    assert forall|k: Seq<char>| k != "XObject"@ implies #[trigger] same_opt(new_resources.spec_get(k), get_in(resolved_dict(d0, page0.spec_get("Resources"@)), k)) by {
        assert(new_resources.spec_get(k) == res_before.spec_get(k));
        assert(same_opt(res_before.spec_get(k), get_in_ref(resources, k)));
    }
    let cx = (canvas.width - w) * 5;
    let cy = (canvas.height - h) * 5;
    let mut start: Vec<Operation> = Vec::new();
    let mut do_operands: Vec<Value> = Vec::new();
    do_operands.push(Value::Name(name));
    start.push(Operation { operator: "Do".to_owned(), operands: do_operands });
    start.push(make_op("q", vec![]));
    start.push(make_op("cm", vec![100000, 0, 0, 100000, cx, cy]));
    assert(seq![100000i64, 0, 0, 100000, cx, cy].map_values(|a: i64| a as int) =~= seq![100000int, 0, 0, 100000, cx as int, cy as int]);
    assert(Seq::<i64>::empty().map_values(|a: i64| a as int) =~= Seq::<int>::empty());
    let ghost start_g = start;
    let start_id = doc.add_object(operations_stream(start));
    let mut end: Vec<Operation> = Vec::new();
    end.push(make_op("Q", vec![]));
    let end_id = doc.add_object(operations_stream(end));
    let ghost after_streams = doc.objects@;
    let mut list: Vec<Value> = Vec::new();
    list.push(Value::Reference(start_id));
    list.append(&mut contents);
    list.push(Value::Reference(end_id));
    let media_box = canvas_box(canvas);
    let mut nd = match doc.take_object(page_id) {
        Some(Value::Dictionary(d)) => d,
        _ => return Err(Error::NotAPage(page_id)),
    };
    let ghost n = d0.objects@.len() as int;
    assert(nd == page0);
    let ghost mb_g = media_box;
    let ghost res_g = new_resources;
    let ghost list_g = list;
    nd.set("MediaBox".to_owned(), Value::Array(media_box));
    nd.set("Resources".to_owned(), Value::Dictionary(new_resources));
    nd.set("Contents".to_owned(), Value::Array(list));
    doc.set_object(page_id, Value::Dictionary(nd));
    proof {
        reveal_strlit("MediaBox");
        reveal_strlit("Resources");
        reveal_strlit("Contents");
        assert("MediaBox"@.len() == 8 && "Resources"@.len() == 9 && "Contents"@.len() == 8);
        assert("MediaBox"@[0] == 'M' && "Contents"@[0] == 'C');
        assert("MediaBox"@ != "Resources"@ && "MediaBox"@ != "Contents"@ && "Resources"@ != "Contents"@);
        assert(nd.spec_get("MediaBox"@) == Some(Value::Array(mb_g)));
        assert(nd.spec_get("Resources"@) == Some(Value::Dictionary(res_g)));
        assert(nd.spec_get("Contents"@) == Some(Value::Array(list_g)));
        assert(forall|k: Seq<char>| k != "MediaBox"@ && k != "Resources"@ && k != "Contents"@
                    ==> #[trigger] nd.spec_get(k) == page0.spec_get(k));
        assert(doc.objects@[page_id.index()] == Some(Value::Dictionary(nd)));
        assert(forall|i: int| 0 <= i < n && i != page_id.index() ==> doc.objects@[i] == d0.objects@[i]);
        assert(res_g.spec_get("XObject"@) == Some(Value::Reference(ObjectId((n + 2) as u32))));
        assert(list_g@.len() == contents_list(page0.spec_get("Contents"@)).len() + 2);
        assert(doc.objects@[n] == after_overlay[n]);
        assert(doc.objects@[n + 1] == after_overlay[n + 1]);
        assert(doc.objects@[n + 2] == Some(Value::Dictionary(xt_g)));
        assert(doc.objects@[n + 3] == after_streams[n + 3]);
        assert(doc.objects@[n + 4] == after_streams[n + 4]);
        assert(media_size(page0) == Some((w as int, h as int)));
        assert(start_drawn(start_g@, nm, center_offset(canvas.width as int, w as int), center_offset(canvas.height as int, h as int)));
        assert(xt_g.spec_get(nm) == Some(Value::Reference(ObjectId((n + 1) as u32))));
        assert(forall|i: int| 0 <= i < list_g@.len() - 2 ==> #[trigger] same(list_g@[i + 1], contents_list(page0.spec_get("Contents"@))[i]));
    }
    Ok(())
}

/// Every page of the list can be stamped.
pub open spec fn pages_stampable(doc: Document, pages: Seq<ObjectId>) -> bool {
    forall|k: int| 0 <= k < pages.len() ==> stampable(doc, #[trigger] pages[k])
}

/// No page appears twice in the list.
pub open spec fn distinct_pages(pages: Seq<ObjectId>) -> bool {
    forall|i: int, j: int| 0 <= i < j < pages.len() ==> pages[i] != pages[j]
}

/// `before` is the document as it stood when page `k` of `pages` was
/// stamped in the run that started from `start` and ended in `end`: the
/// embedded font and the pages before `k` as they ended, the others as they
/// started.
pub open spec fn state_before_page(
    before: Document,
    start: Document,
    end: Document,
    pages: Seq<ObjectId>,
    k: int,
) -> bool {
    let n = start.objects@.len() as int;
    &&& before.objects@.len() == n + 3 + 5 * k
    &&& forall|i: int| 0 <= i < n && !pages.contains(ObjectId(i as u32)) ==> #[trigger] before.objects@[i] == start.objects@[i]
    &&& forall|j: int|
        k <= j < pages.len() && pages[j].index() < n ==> #[trigger] before.objects@[pages[j].index()]
            == start.objects@[pages[j].index()]
    &&& forall|j: int| 0 <= j < k ==> #[trigger] before.objects@[pages[j].index()] == end.objects@[pages[j].index()]
    &&& forall|i: int| n <= i < n + 3 + 5 * k ==> #[trigger] before.objects@[i] == end.objects@[i]
}

/// Page `k` of `pages` was stamped, as `stamp_page` does, in the document as
/// it stood after the pages before it, in the run from `start` to `end`.
pub open spec fn page_k_stamped(
    start: Document,
    end: Document,
    pages: Seq<ObjectId>,
    k: int,
    canvas: Size,
    trim: Size,
    font_id: ObjectId,
    gw: GlyphWidth,
    timestamp: Seq<u8>,
) -> bool {
    exists|before: Document|
        #[trigger] stamp_effect(before, end, pages[k], canvas, trim, font_id, gw, timestamp, (k + 1) as nat)
            && state_before_page(before, start, end, pages, k)
}

/// Stamps every page of `pages`, in order, with crop marks around a trim box
/// of size `trim` centered on a canvas of size `canvas`, the timestamp, and
/// its number in the list counting from one.
///
/// The footer font is embedded once, from `font_data`, and every overlay
/// binds it. Each page is stamped as `stamp_page` does, in the document as it
/// stands after the pages before it. Objects that are not pages of the list
/// are left as they are, so the page tree and the order of the pages do not
/// change. Fails when the font does not parse, or on the first page that
/// cannot be stamped.
pub fn combine(
    doc: &mut Document,
    pages: &Vec<ObjectId>,
    font_data: Vec<u8>,
    canvas: Size,
    trim: Size,
    timestamp: &[u8],
) -> (r: Result<(), Error>)
    requires
        old(doc).objects@.len() + 3 + 5 * pages@.len() < u32::MAX,
        distinct_pages(pages@),
        canvas.valid(),
        trim.valid(),
    ensures
        r is Ok <==> parsed_metrics(font_data@) is Some && pages_stampable(*old(doc), pages@),
        parsed_metrics(font_data@) is None ==> r == Err::<(), Error>(Error::UnreadableFont),
        r matches Err(e) ==> e == Error::UnreadableFont || exists|k: int|
            0 <= k < pages@.len() && (e == Error::NotAPage(#[trigger] pages@[k]) || e == Error::BadMediaBox(pages@[k])
                || e == Error::MissingContents(pages@[k])),
        r is Ok ==> {
            let n = old(doc).objects@.len() as int;
            let gw = GlyphWidth {
                advance: advance_of(parsed_metrics(font_data@)->0),
                units_per_em: parsed_metrics(font_data@)->0.units_per_em,
            };
            &&& final(doc).objects@.len() == n + 3 + 5 * pages@.len()
            &&& final(doc).root == old(doc).root
            &&& final(doc).info == old(doc).info
            &&& font_embedded(*final(doc), n, font_data@)
            &&& forall|i: int|
                0 <= i < n && !pages@.contains(ObjectId(i as u32)) ==> #[trigger] final(doc).objects@[i]
                    == old(doc).objects@[i]
            &&& forall|k: int|
                0 <= k < pages@.len() ==> #[trigger] page_k_stamped(
                    *old(doc),
                    *final(doc),
                    pages@,
                    k,
                    canvas,
                    trim,
                    ObjectId((n + 2) as u32),
                    gw,
                    timestamp@,
                )
        },
{
    let ghost d0 = *doc;
    let initial_len = doc.objects.len();
    let ghost n = initial_len as int;
    let (font_id, gw) = match embed_font(doc, font_data) {
        Ok(found) => found,
        Err(e) => return Err(e),
    };
    let ghost d1 = *doc;
    let mut k: usize = 0;
    while k < pages.len()
        invariant
            0 <= k <= pages@.len(),
            n == d0.objects@.len(),
            n == initial_len,
            d0 == *old(doc),
            n + 3 + 5 * pages@.len() < u32::MAX,
            distinct_pages(pages@),
            canvas.valid(),
            trim.valid(),
            font_id == ObjectId((n + 2) as u32),
            gw == (GlyphWidth {
                advance: advance_of(parsed_metrics(font_data@)->0),
                units_per_em: parsed_metrics(font_data@)->0.units_per_em,
            }),
            parsed_metrics(font_data@) matches Some(m) && 16 <= m.units_per_em,
            font_embedded(*doc, n, font_data@),
            doc.objects@.len() == n + 3 + 5 * k,
            doc.root == d0.root,
            doc.info == d0.info,
            forall|i: int|
                0 <= i < n && !pages@.subrange(0, k as int).contains(ObjectId(i as u32)) ==> #[trigger] doc.objects@[i]
                    == d0.objects@[i],
            forall|j: int|
                0 <= j < k ==> #[trigger] page_k_stamped(d0, *doc, pages@, j, canvas, trim, font_id, gw, timestamp@),
            forall|j: int| 0 <= j < k ==> stampable(d0, #[trigger] pages@[j]) && pages@[j].index() < n,
        decreases pages@.len() - k,
    {
        let page_id = pages[k];
        if page_id.0 as usize >= initial_len {
            proof {
                assert(!stampable(d0, pages@[k as int]));
            }
            return Err(Error::NotAPage(page_id));
        }
        let ghost before = *doc;
        proof {
            assert(!pages@.subrange(0, k as int).contains(page_id)) by {
                if pages@.subrange(0, k as int).contains(page_id) {
                    let j = choose|j: int| 0 <= j < k && pages@.subrange(0, k as int)[j] == page_id;
                    assert(pages@[j] == pages@[k as int]);
                }
            }
            assert(before.objects@[page_id.index()] == d0.objects@[page_id.index()]);
        }
        match stamp_page(doc, page_id, canvas, trim, font_id, gw, timestamp, (k + 1) as u64) {
            Ok(()) => {},
            Err(e) => {
                proof {
                    assert(!stampable(d0, pages@[k as int]));
                }
                return Err(e);
            },
        }
        proof {
            let after = *doc;
            assert(stampable(d0, page_id));
            assert forall|i: int| 0 <= i < n + 3 + 5 * k && i != page_id.index() implies #[trigger] after.objects@[i] == before.objects@[i] by {}
            assert(font_embedded(after, n, font_data@)) by {
                assert(after.objects@[n] == before.objects@[n]);
                assert(after.objects@[n + 1] == before.objects@[n + 1]);
                assert(after.objects@[n + 2] == before.objects@[n + 2]);
            }
            assert forall|i: int|
                0 <= i < n && !pages@.subrange(0, k + 1).contains(ObjectId(i as u32)) implies #[trigger] after.objects@[i]
                    == d0.objects@[i] by {
                assert(pages@.subrange(0, k + 1)[k as int] == page_id);
                assert(i != page_id.index());
                assert(!pages@.subrange(0, k as int).contains(ObjectId(i as u32))) by {
                    if pages@.subrange(0, k as int).contains(ObjectId(i as u32)) {
                        let j = choose|j: int| 0 <= j < k && pages@.subrange(0, k as int)[j] == ObjectId(i as u32);
                        assert(pages@.subrange(0, k + 1)[j] == ObjectId(i as u32));
                    }
                }
            }
            assert forall|j: int| 0 <= j < k + 1 implies #[trigger] page_k_stamped(d0, after, pages@, j, canvas, trim, font_id, gw, timestamp@) by {
                if j < k {
                    assert(page_k_stamped(d0, before, pages@, j, canvas, trim, font_id, gw, timestamp@));
                    let b = choose|b: Document|
                        #[trigger] stamp_effect(b, before, pages@[j], canvas, trim, font_id, gw, timestamp@, (j + 1) as nat)
                            && state_before_page(b, d0, before, pages@, j);
                    lemma_stamp_effect_kept(b, before, after, pages@[j], canvas, trim, font_id, gw, timestamp@, (j + 1) as nat);
                    assert forall|jj: int| 0 <= jj < j implies #[trigger] b.objects@[pages@[jj].index()] == after.objects@[pages@[jj].index()] by {
                        assert(pages@[jj] != page_id);
                    }
                    assert(state_before_page(b, d0, after, pages@, j));
                    assert(stamp_effect(b, after, pages@[j], canvas, trim, font_id, gw, timestamp@, (j + 1) as nat));
                } else {
                    assert forall|jj: int| k <= jj < pages@.len() && pages@[jj].index() < n implies #[trigger] before.objects@[pages@[jj].index()] == d0.objects@[pages@[jj].index()] by {
                        if jj > k {
                            assert(!pages@.subrange(0, k as int).contains(ObjectId(pages@[jj].index() as u32))) by {
                                if pages@.subrange(0, k as int).contains(ObjectId(pages@[jj].index() as u32)) {
                                    let j2 = choose|j2: int| 0 <= j2 < k && pages@.subrange(0, k as int)[j2] == ObjectId(pages@[jj].index() as u32);
                                    assert(pages@[j2] == pages@[jj]);
                                }
                            }
                        }
                    }
                    assert(state_before_page(before, d0, after, pages@, j));
                    assert(stamp_effect(before, after, pages@[j], canvas, trim, font_id, gw, timestamp@, (j + 1) as nat));
                }
            }
        }
        k = k + 1;
    }
    proof {
        assert(pages@.subrange(0, pages@.len() as int) =~= pages@);
    }
    Ok(())
}

/// A stamped page keeps what stamping left while its objects are kept.
proof fn lemma_stamp_effect_kept(
    old: Document,
    d1: Document,
    d2: Document,
    page_id: ObjectId,
    canvas: Size,
    trim: Size,
    font_id: ObjectId,
    gw: GlyphWidth,
    timestamp: Seq<u8>,
    page_num: nat,
)
    requires
        stamp_effect(old, d1, page_id, canvas, trim, font_id, gw, timestamp, page_num),
        d1.objects@.len() <= d2.objects@.len(),
        d2.objects@[page_id.index()] == d1.objects@[page_id.index()],
        forall|i: int| old.objects@.len() <= i < old.objects@.len() + 5 ==> #[trigger] d2.objects@[i] == d1.objects@[i],
    ensures
        stamp_effect(old, d2, page_id, canvas, trim, font_id, gw, timestamp, page_num),
{
    let n = old.objects@.len() as int;
    assert(d2.objects@[n] == d1.objects@[n]);
    assert(d2.objects@[n + 1] == d1.objects@[n + 1]);
    assert(d2.objects@[n + 2] == d1.objects@[n + 2]);
    assert(d2.objects@[n + 3] == d1.objects@[n + 3]);
    assert(d2.objects@[n + 4] == d1.objects@[n + 4]);
}

} // verus!
