//! The transplant strategy: a fresh document in which every manuscript page
//! becomes a form drawn on top of the template's own drawing.
use vstd::prelude::*;
use crate::content::{contents_complete, contents_ops, read_operations, same_ops};
use crate::geometry::{Size, center_offset, coordinate, length_number, read_coordinate, scaled};
use crate::object::{
    deref_opt, Dictionary, Document, Error, ObjectId, Operation, Stream, StreamContent, Value, all_refs, entry, lookup,
    mapped,
};
use crate::overlay::{bare_op, make_op, numeric_op};
use crate::resources::{class_merged, lists, merge};
use crate::stamp::resolved_dict;
use crate::transplant::{
    CopyCache, cache_valid, cached, closed, count_none, renaming, slot_of, lemma_cache_valid_grow, lemma_count_extends,
    lemma_count_none_le, resolvable, transplant,
};

verus! {

/// The corners `(x1, y1, x2, y2)` of a page's MediaBox, in units of 1/10000 point.
pub open spec fn media_corners(page: Dictionary) -> Option<(int, int, int, int)> {
    match page.spec_get("MediaBox"@) {
        Some(Value::Array(a)) => if a.len() == 4 && coordinate(a@[0]) is Some && coordinate(a@[1]) is Some
            && coordinate(a@[2]) is Some && coordinate(a@[3]) is Some {
            Some((coordinate(a@[0])->0, coordinate(a@[1])->0, coordinate(a@[2])->0, coordinate(a@[3])->0))
        } else {
            None
        },
        _ => None,
    }
}

/// Reads the corners of a page's MediaBox.
fn read_media_corners(page: &Dictionary) -> (r: Option<(i64, i64, i64, i64)>)
    ensures
        r matches Some((a, b, c, d)) ==> media_corners(*page) == Some((a as int, b as int, c as int, d as int)),
        r is None ==> media_corners(*page) is None,
{
    match page.get("MediaBox") {
        Some(Value::Array(a)) => {
            if a.len() != 4 {
                return None;
            }
            match (read_coordinate(&a[0]), read_coordinate(&a[1]), read_coordinate(&a[2]), read_coordinate(&a[3])) {
                (Some(x1), Some(y1), Some(x2), Some(y2)) => Some((x1, y1, x2, y2)),
                _ => None,
            }
        },
        _ => None,
    }
}

/// The translation `(tx, ty)` (units of 1/100000 point) that centers a form
/// with bounding box `corners` on `canvas`; flipped forms are mirrored
/// vertically.
pub open spec fn placement(canvas: Size, corners: (int, int, int, int), flip: bool) -> (int, int) {
    let (x1, y1, x2, y2) = corners;
    let tx = center_offset(canvas.width as int, x2 - x1) - x1 * 10;
    let ty = if flip {
        center_offset(canvas.height as int, y2 - y1) + y2 * 10
    } else {
        center_offset(canvas.height as int, y2 - y1) - y1 * 10
    };
    (tx, ty)
}

/// The name under which a page binds its manuscript form.
pub open spec fn form_name() -> Seq<char> {
    "Manuscript"@
}

/// `ops` draws the template's operations, then the form named `Manuscript`
/// translated by `(tx, ty)` (and mirrored if `flip`), inside a saved state.
pub open spec fn page_drawn(ops: Seq<Operation>, template_ops: Seq<Operation>, tx: int, ty: int, flip: bool) -> bool {
    let t = template_ops.len() as int;
    &&& ops.len() == t + 4
    &&& same_ops(ops.subrange(0, t), template_ops)
    &&& bare_op(ops[t], "q"@)
    &&& numeric_op(ops[t + 1], "cm"@, seq![100000, 0, 0, if flip { -100000 } else { 100000 }, tx, ty])
    &&& ops[t + 2].operator@ == "Do"@ && ops[t + 2].operands.len() == 1
    &&& ops[t + 2].operands@[0] matches Value::Name(n) && n@ == form_name()
    &&& bare_op(ops[t + 3], "Q"@)
}


/// `a` is `b` with its references renamed by a copy cache whose entries all
/// name objects of `out`.
pub open spec fn renamed_into(out: Document, a: Value, b: Value) -> bool {
    exists|s: Seq<Option<ObjectId>>|
        #[trigger] mapped(a, b, renaming(s)) && all_refs(b, cached(s)) && cache_valid(out.objects@, s)
}

/// `base` is the template page's resources `tres` copied into `out`, or an
/// empty table where the template page has none.
pub open spec fn template_base(out: Document, base: Dictionary, tres: Option<Dictionary>) -> bool {
    match tres {
        Some(d) => renamed_into(out, Value::Dictionary(base), Value::Dictionary(d)),
        None => base.entries.len() == 0,
    }
}

/// `rv` is the manuscript page's resources `mres` copied into `out`, or an
/// empty table where the page has none.
pub open spec fn form_resources(out: Document, rv: Value, mres: Option<Value>) -> bool {
    match mres {
        Some(v) => renamed_into(out, rv, v),
        None => rv matches Value::Dictionary(d) && d.entries.len() == 0,
    }
}

/// `res` is the merge of the template's resources, copied into `out`, with a
/// table that binds only the form `fm` under the name `Manuscript` in its
/// XObject class.
pub open spec fn form_bound(out: Document, res: Dictionary, fm: ObjectId, tres: Option<Dictionary>) -> bool {
    exists|base: Dictionary, ov: Dictionary|
        #[trigger] merged_with(res, base, ov) && binds_only_form(ov, fm) && template_base(out, base, tres)
}

/// `res` is what `merge` makes of `base` and `ov`.
pub open spec fn merged_with(res: Dictionary, base: Dictionary, ov: Dictionary) -> bool {
    forall|k: Seq<char>| #[trigger] class_merged(res.spec_get(k), base.spec_get(k), ov.spec_get(k))
}

/// `ov` holds one class, XObject, whose table binds `fm` under the form's name.
pub open spec fn binds_only_form(ov: Dictionary, fm: ObjectId) -> bool {
    &&& forall|k: Seq<char>| k != "XObject"@ ==> #[trigger] ov.spec_get(k) is None
    &&& ov.spec_get("XObject"@) matches Some(Value::Dictionary(t)) && t.spec_get(form_name()) == Some(Value::Reference(fm))
}

/// The resources of page `pid` leave its XObject class as something other
/// than an inline table: the template's own class was kept and the form's
/// binding deferred.
pub open spec fn xobject_deferred(out: Document, pid: ObjectId) -> bool {
    forall|res: Dictionary|
        #[trigger] out.spec_object(pid)->Dictionary_0.spec_has("Resources"@, Value::Dictionary(res))
            ==> !(res.spec_get("XObject"@) matches Some(Value::Dictionary(_)))
}

/// Page dictionary `pd` binds, in its resources `res`, the form `fm` that
/// draws manuscript page `mpage` with resources `rv` copied from the page's.
pub open spec fn form_parts(
    out: Document,
    pd: Dictionary,
    fm: ObjectId,
    res: Dictionary,
    rv: Value,
    tres: Option<Dictionary>,
    manuscript: Document,
    mpage: Dictionary,
) -> bool {
    pd.spec_has("Resources"@, Value::Dictionary(res)) && form_bound(out, res, fm, tres) && out.resolves(fm) && (
    out.spec_object(fm) matches Value::Stream(f) && f.content matches StreamContent::Operations(fops) && same_ops(
        fops@,
        contents_ops(manuscript, mpage.spec_get("Contents"@)),
    ) && f.dict.spec_has("Resources"@, rv) && form_resources(out, rv, mpage.spec_get("Resources"@)))
}

/// Page `pid` of `out` shows manuscript page `mpage` as a form, centered on
/// the canvas on top of the template's drawing, and hangs from the page-tree
/// node `tree`.
pub open spec fn page_composed(
    out: Document,
    pid: ObjectId,
    tree: ObjectId,
    template_ops: Seq<Operation>,
    tres: Option<Dictionary>,
    manuscript: Document,
    mpage: Dictionary,
    canvas: Size,
    flip: bool,
) -> bool {
    let (tx, ty) = placement(canvas, media_corners(mpage)->0, flip);
    &&& out.resolves(pid)
    &&& out.spec_object(pid) matches Value::Dictionary(pd) && {
        &&& pd.spec_has("Parent"@, Value::Reference(tree))
        &&& exists|mb: Vec<Value>|
            #![auto]
            pd.spec_has("MediaBox"@, Value::Array(mb)) && mb.len() == 4 && scaled(mb@[0], 4) == Some(0int)
                && scaled(mb@[1], 4) == Some(0int) && scaled(mb@[2], 4) == Some(canvas.width as int)
                && scaled(mb@[3], 4) == Some(canvas.height as int)
        &&& exists|cs: ObjectId|
            #![auto]
            pd.spec_has("Contents"@, Value::Reference(cs)) && out.resolves(cs) && (out.spec_object(cs) matches Value::Stream(
                st,
            ) && st.content matches StreamContent::Operations(ops) && page_drawn(ops@, template_ops, tx, ty, flip))
        &&& exists|fm: ObjectId, res: Dictionary, rv: Value|
            #[trigger] form_parts(out, pd, fm, res, rv, tres, manuscript, mpage)
    }
}

/// What a dictionary reads under a key holds only references that all its entries hold.
proof fn lemma_lookup_refs(entries: Seq<(String, Value)>, k: Seq<char>, s: Set<ObjectId>)
    requires
        forall|i: int| 0 <= i < entries.len() ==> all_refs(#[trigger] entries[i].1, s),
    ensures
        lookup(entries, k) matches Some(v) ==> all_refs(v, s),
    decreases entries.len(),
{
    if entries.len() > 0 {
        assert(all_refs(entries[0].1, s));
        assert forall|i: int| 0 <= i < entries.drop_first().len() implies all_refs(#[trigger] entries.drop_first()[i].1, s) by {
            assert(all_refs(entries[i + 1].1, s));
        }
        lemma_lookup_refs(entries.drop_first(), k, s);
    }
}

/// A page whose references all resolve, with a usable MediaBox.
pub open spec fn sound_page(doc: Document, id: ObjectId) -> bool {
    &&& doc.resolves(id)
    &&& doc.spec_object(id) matches Value::Dictionary(d) && media_corners(d) is Some
    &&& all_refs(doc.spec_object(id), resolvable(doc))
}

/// Builds one output page from manuscript page `page_id`: its resources are
/// transplanted into a form that draws its operations; the page draws the
/// template's operations and then the form, centered on the canvas.
#[verifier::rlimit(100)]
#[verifier::spinoff_prover]
fn compose_page(
    out: &mut Document,
    template: &Document,
    tcache: &mut CopyCache,
    template_page: &Dictionary,
    manuscript: &Document,
    mcache: &mut CopyCache,
    page_id: ObjectId,
    canvas: Size,
    flip: bool,
    tree: ObjectId,
) -> (r: Result<(ObjectId, bool, bool), Error>)
    requires
        old(tcache).slots@.len() == template.objects@.len(),
        old(mcache).slots@.len() == manuscript.objects@.len(),
        cache_valid(old(out).objects@, old(tcache).slots@),
        cache_valid(old(out).objects@, old(mcache).slots@),
        old(out).objects@.len() + count_none(old(tcache).slots@) + count_none(old(mcache).slots@) + 3 < u32::MAX,
        canvas.valid(),
    ensures
        final(tcache).slots@.len() == template.objects@.len(),
        final(mcache).slots@.len() == manuscript.objects@.len(),
        final(out).root == old(out).root,
        final(out).info == old(out).info,
        r matches Err(e) ==> match e {
            Error::NotAPage(p) => p == page_id && !(manuscript.resolves(page_id)
                && manuscript.spec_object(page_id) is Dictionary),
            Error::BadMediaBox(p) => p == page_id && manuscript.resolves(page_id) && (manuscript.spec_object(
                page_id,
            ) matches Value::Dictionary(d) && media_corners(d) is None),
            Error::DanglingReference(id) => !template.resolves(id) || !manuscript.resolves(id),
            _ => false,
        },
        closed(*template) && closed(*manuscript) && all_refs(Value::Dictionary(*template_page), resolvable(*template))
            && sound_page(*manuscript, page_id) ==> r is Ok,
        r matches Ok((pid, read, deferred)) ==> {
            &&& deferred == xobject_deferred(*final(out), pid)
            &&& read == contents_complete(*manuscript, manuscript.spec_object(page_id)->Dictionary_0.spec_get("Contents"@))
            &&& cache_valid(final(out).objects@, final(tcache).slots@)
            &&& cache_valid(final(out).objects@, final(mcache).slots@)
            &&& final(out).objects@.len() + count_none(final(tcache).slots@) + count_none(final(mcache).slots@)
                <= old(out).objects@.len() + count_none(old(tcache).slots@) + count_none(old(mcache).slots@) + 3
            &&& old(out).objects@.len() <= final(out).objects@.len()
            &&& forall|i: int| 0 <= i < old(out).objects@.len() ==> #[trigger] final(out).objects@[i] == old(out).objects@[i]
            &&& old(out).objects@.len() <= pid.index() < final(out).objects@.len()
            &&& manuscript.resolves(page_id) && manuscript.spec_object(page_id) is Dictionary
            &&& page_composed(
                *final(out),
                pid,
                tree,
                contents_ops(*template, template_page.spec_get("Contents"@)),
                resolved_dict(*template, template_page.spec_get("Resources"@)),
                *manuscript,
                manuscript.spec_object(page_id)->Dictionary_0,
                canvas,
                flip,
            )
        },
{
    let page = match manuscript.get_object(page_id) {
        Some(Value::Dictionary(d)) => d,
        _ => return Err(Error::NotAPage(page_id)),
    };
    let (x1, y1, x2, y2) = match read_media_corners(page) {
        Some(c) => c,
        None => return Err(Error::BadMediaBox(page_id)),
    };
    let ghost d0 = out.objects@;
    let ghost t0 = tcache.slots@;
    let ghost m0 = mcache.slots@;
    proof {
        if all_refs(Value::Dictionary(*page), resolvable(*manuscript)) {
            lemma_lookup_refs(page.entries@, "Resources"@, resolvable(*manuscript));
        }
        if all_refs(Value::Dictionary(*template_page), resolvable(*template)) {
            let tv = Value::Dictionary(*template_page);
            assert(forall|i: int| 0 <= i < template_page.entries@.len() ==> tv->Dictionary_0.entries@[i] == template_page.entries@[i]);
            assert(forall|i: int| 0 <= i < template_page.entries@.len() ==> all_refs(template_page.entries@[i].1, resolvable(*template)));
            lemma_lookup_refs(template_page.entries@, "Resources"@, resolvable(*template));
        }
    }
    // The manuscript page's resources, renamed into the output.
    let page_resources = match page.get("Resources") {
        Some(v) => match transplant(manuscript, v, out, mcache) {
            Ok(res) => res,
            Err(e) => return Err(e),
        },
        None => Value::Dictionary(Dictionary::new()),
    };
    let ghost d1 = out.objects@;
    let ghost m1 = mcache.slots@;
    proof {
        lemma_count_extends(m0, m1);
        lemma_cache_valid_grow(d0, d1, t0);
    }
    // The template's resources, renamed into the output once per object.
    // The template page's resources, resolved where they are indirect.
    let tres: Option<&Value> = match template_page.get("Resources") {
        Some(v) => match v {
            Value::Dictionary(_) => Some(v),
            Value::Reference(id) => match template.get_object(*id) {
                Some(o) => match o {
                    Value::Dictionary(_) => Some(o),
                    _ => None,
                },
                None => None,
            },
            _ => None,
        },
        None => None,
    };
    assert(deref_opt(tres) == match resolved_dict(*template, template_page.spec_get("Resources"@)) {
        Some(d) => Some(Value::Dictionary(d)),
        None => None::<Value>,
    });
    let ghost form_res_g = page_resources;
    let base = match tres {
        Some(v) => match transplant(template, v, out, tcache) {
            Ok(Value::Dictionary(d)) => d,
            Ok(_) => Dictionary::new(),
            Err(e) => return Err(e),
        },
        None => Dictionary::new(),
    };
    let ghost d2 = out.objects@;
    let ghost t2 = tcache.slots@;
    proof {
        lemma_count_extends(t0, t2);
        lemma_cache_valid_grow(d1, d2, m1);
    }
    let (form_ops, form_read) = read_operations(manuscript, page.get("Contents"));
    let mut bbox: Vec<Value> = Vec::new();
    bbox.push(length_number(x1));
    bbox.push(length_number(y1));
    bbox.push(length_number(x2));
    bbox.push(length_number(y2));
    let mut form_dict: Vec<(String, Value)> = Vec::new();
    form_dict.push(entry("Type", Value::Name("XObject".to_owned())));
    form_dict.push(entry("Subtype", Value::Name("Form".to_owned())));
    form_dict.push(entry("BBox", Value::Array(bbox)));
    form_dict.push(entry("Resources", page_resources));
    let ghost form_ops_g = form_ops;
    let form_id = out.add_object(
        Value::Stream(Stream { dict: Dictionary { entries: form_dict }, content: StreamContent::Operations(form_ops) }),
    );
    // The page's own drawing: the template underneath, then the form.
    let (mut ops, _complete) = read_operations(template, template_page.get("Contents"));
    let ghost tops = ops@;
    let tx = (canvas.width - (x2 - x1)) * 5 - x1 * 10;
    let ty = if flip {
        (canvas.height - (y2 - y1)) * 5 + y2 * 10
    } else {
        (canvas.height - (y2 - y1)) * 5 - y1 * 10
    };
    let d: i64 = if flip {
        -100000
    } else {
        100000
    };
    ops.push(make_op("q", vec![]));
    ops.push(make_op("cm", vec![100000, 0, 0, d, tx, ty]));
    let mut do_operands: Vec<Value> = Vec::new();
    do_operands.push(Value::Name("Manuscript".to_owned()));
    ops.push(Operation { operator: "Do".to_owned(), operands: do_operands });
    ops.push(make_op("Q", vec![]));
    let ghost page_ops = ops;
    let contents_id = out.add_object(
        Value::Stream(Stream { dict: Dictionary::new(), content: StreamContent::Operations(ops) }),
    );
    // The page's resources: the template's, with the form added under its name.
    let mut names: Vec<(String, Value)> = Vec::new();
    names.push(entry("Manuscript", Value::Reference(form_id)));
    let mut overlay: Vec<(String, Value)> = Vec::new();
    overlay.push(entry("XObject", Value::Dictionary(Dictionary { entries: names })));
    let ov = Dictionary { entries: overlay };
    let ghost ov_g = ov;
    let ghost base_g = base;
    let merged = merge(base, ov);
    let deferred = merged.deferred.len() > 0;
    let ghost deferred_g = merged.deferred@;
    let resources = merged.resources;
    let ghost res_g = resources;
    let mut media_box: Vec<Value> = Vec::new();
    media_box.push(length_number(0));
    media_box.push(length_number(0));
    media_box.push(length_number(canvas.width));
    media_box.push(length_number(canvas.height));
    let ghost mb_g = media_box;
    let mut pd: Vec<(String, Value)> = Vec::new();
    pd.push(entry("Type", Value::Name("Page".to_owned())));
    pd.push(entry("Parent", Value::Reference(tree)));
    pd.push(entry("MediaBox", Value::Array(media_box)));
    pd.push(entry("Contents", Value::Reference(contents_id)));
    pd.push(entry("Resources", Value::Dictionary(resources)));
    let ghost pd_g = Dictionary { entries: pd };
    let pid = out.add_object(Value::Dictionary(Dictionary { entries: pd }));
    proof {
        let fin = out.objects@;
        lemma_cache_valid_grow(d2, fin, t2);
        lemma_cache_valid_grow(d2, fin, m1);
        assert(pd_g.entries@[1].0@ == "Parent"@);
        assert(pd_g.spec_has("Parent"@, Value::Reference(tree)));
        assert(pd_g.entries@[2].0@ == "MediaBox"@);
        assert(pd_g.spec_has("MediaBox"@, Value::Array(mb_g)));
        assert(pd_g.entries@[3].0@ == "Contents"@);
        assert(pd_g.spec_has("Contents"@, Value::Reference(contents_id)));
        assert(pd_g.entries@[4].0@ == "Resources"@);
        assert(pd_g.spec_has("Resources"@, Value::Dictionary(res_g)));
        // The page's drawing.
        let t = tops.len() as int;
        assert(page_ops@.subrange(0, t) =~= tops);
        assert(seq![100000i64, 0, 0, d, tx, ty].map_values(|a: i64| a as int) =~= seq![100000int, 0, 0, if flip { -100000int } else { 100000int }, tx as int, ty as int]);
        assert(Seq::<i64>::empty().map_values(|a: i64| a as int) =~= Seq::<int>::empty());
        let mpage = manuscript.spec_object(page_id)->Dictionary_0;
        assert(media_corners(mpage) == Some((x1 as int, y1 as int, x2 as int, y2 as int)));
        let (ptx, pty) = placement(canvas, media_corners(mpage)->0, flip);
        assert(ptx == tx && pty == ty);
        assert(page_drawn(page_ops@, contents_ops(*template, template_page.spec_get("Contents"@)), tx as int, ty as int, flip));
        // The form and its binding.
        assert(binds_only_form(ov_g, form_id)) by {
            assert(ov_g.entries@[0].0@ == "XObject"@);
            assert forall|k: Seq<char>| k != "XObject"@ implies #[trigger] ov_g.spec_get(k) is None by {
                assert(ov_g.entries@.drop_first().len() == 0);
                assert(crate::object::lookup(ov_g.entries@.drop_first(), k) is None);
            }
            let names_g = ov_g.entries@[0].1->Dictionary_0;
            assert(names_g.entries@[0].0@ == form_name());
        }
        assert(merged_with(res_g, base_g, ov_g));
        let tres_spec = resolved_dict(*template, template_page.spec_get("Resources"@));
        assert(template_base(*out, base_g, tres_spec)) by {
            if let Some(td) = tres_spec {
                assert(mapped(Value::Dictionary(base_g), Value::Dictionary(td), renaming(t2)));
                assert(all_refs(Value::Dictionary(td), cached(t2)));
                assert(cache_valid(fin, t2));
            }
        }
        assert(form_bound(*out, res_g, form_id, tres_spec));
        assert(same_ops(form_ops_g@, contents_ops(*manuscript, mpage.spec_get("Contents"@))));
        assert(out.objects@.len() + count_none(tcache.slots@) + count_none(mcache.slots@)
                <= d0.len() + count_none(t0) + count_none(m0) + 3);
        assert(forall|i: int| 0 <= i < d0.len() ==> #[trigger] fin[i] == d0[i]);
        assert(out.resolves(pid));
        assert(out.spec_object(pid) == Value::Dictionary(pd_g));
        assert(out.resolves(contents_id));
        assert(out.resolves(form_id));
        let cst = out.spec_object(contents_id)->Stream_0;
        assert(cst.content == StreamContent::Operations(page_ops));
        let fst = out.spec_object(form_id)->Stream_0;
        assert(fst.content == StreamContent::Operations(form_ops_g));
        assert(fst.dict.entries@[3].0@ == "Resources"@ && fst.dict.entries@[3].1 == form_res_g);
        assert(fst.dict.spec_has("Resources"@, form_res_g));
        assert(form_resources(*out, form_res_g, mpage.spec_get("Resources"@))) by {
            if let Some(v) = mpage.spec_get("Resources"@) {
                assert(mapped(form_res_g, v, renaming(m1)));
                assert(all_refs(v, cached(m1)));
                assert(cache_valid(fin, m1));
            }
        }
        assert(exists|cs: ObjectId|
            #![auto]
            pd_g.spec_has("Contents"@, Value::Reference(cs)) && out.resolves(cs) && (out.spec_object(cs) matches Value::Stream(
                st,
            ) && st.content matches StreamContent::Operations(ops) && page_drawn(ops@, contents_ops(*template, template_page.spec_get("Contents"@)), tx as int, ty as int, flip)));
        assert(mb_g.len() == 4 && scaled(mb_g@[0], 4) == Some(0int) && scaled(mb_g@[1], 4) == Some(0int)
            && scaled(mb_g@[2], 4) == Some(canvas.width as int) && scaled(mb_g@[3], 4) == Some(canvas.height as int));
        assert(exists|mb: Vec<Value>|
            #![auto]
            pd_g.spec_has("MediaBox"@, Value::Array(mb)) && mb.len() == 4 && scaled(mb@[0], 4) == Some(0int)
                && scaled(mb@[1], 4) == Some(0int) && scaled(mb@[2], 4) == Some(canvas.width as int)
                && scaled(mb@[3], 4) == Some(canvas.height as int));
        assert(form_parts(*out, pd_g, form_id, res_g, form_res_g, tres_spec, *manuscript, mpage));
        assert(out.spec_object(pid)->Dictionary_0 == pd_g);
        assert(form_parts(*out, out.spec_object(pid)->Dictionary_0, form_id, res_g, form_res_g, tres_spec, *manuscript, mpage));
        assert(page_composed(*out, pid, tree, contents_ops(*template, template_page.spec_get("Contents"@)), resolved_dict(*template, template_page.spec_get("Resources"@)), *manuscript, mpage, canvas, flip));
    }
    proof {
        reveal_strlit("Type");
        reveal_strlit("Parent");
        reveal_strlit("MediaBox");
        reveal_strlit("Contents");
        reveal_strlit("Resources");
        reveal_strlit("XObject");
        assert(ov_g.spec_get("XObject"@) is Some);
        assert(deferred == lists(deferred_g, "XObject"@)) by {
            if deferred {
                assert(lists(deferred_g, deferred_g[0]@));
                assert(ov_g.spec_get(deferred_g[0]@) is Some);
            }
        }
        assert(class_merged(res_g.spec_get("XObject"@), base_g.spec_get("XObject"@), ov_g.spec_get("XObject"@)));
        assert forall|res: Dictionary| #[trigger] pd_g.spec_has("Resources"@, Value::Dictionary(res)) implies res == res_g by {
            let j = choose|j: int| 0 <= j < pd_g.entries@.len() && pd_g.entries@[j].0@ == "Resources"@ && pd_g.entries@[j].1 == Value::Dictionary(res);
            assert(j == 4);
        }
        assert(out.spec_object(pid)->Dictionary_0 == pd_g);
        assert(deferred == xobject_deferred(*out, pid));
    }
    Ok((pid, form_read, deferred))
}


/// `d2` keeps every object of `d1` but placeholders (`Null` objects).
pub open spec fn keeps_objects(d1: Seq<Option<Value>>, d2: Seq<Option<Value>>) -> bool {
    &&& d1.len() <= d2.len()
    &&& forall|i: int| 0 <= i < d1.len() && d1[i] != Some(Value::Null) ==> #[trigger] d2[i] == d1[i]
    &&& forall|i: int| 0 <= i < d1.len() && d1[i] is Some ==> #[trigger] d2[i] is Some
}

/// A copy stays renamed into a store that keeps its objects.
proof fn lemma_renamed_kept(o1: Document, o2: Document, a: Value, b: Value)
    requires
        renamed_into(o1, a, b),
        keeps_objects(o1.objects@, o2.objects@),
    ensures
        renamed_into(o2, a, b),
{
    let s = choose|s: Seq<Option<ObjectId>>|
        #[trigger] mapped(a, b, renaming(s)) && all_refs(b, cached(s)) && cache_valid(o1.objects@, s);
    assert forall|x: ObjectId| #[trigger] slot_of(s, x) is Some implies slot_of(s, x)->0.index() < o2.objects@.len()
        && o2.objects@[slot_of(s, x)->0.index()] is Some by {
        assert(o1.objects@[slot_of(s, x)->0.index()] is Some);
    }
    assert(cache_valid(o2.objects@, s));
}

/// A composed page stays composed while its objects are kept.
proof fn lemma_page_composed_kept(
    o1: Document,
    o2: Document,
    pid: ObjectId,
    tree: ObjectId,
    template_ops: Seq<Operation>,
    tres: Option<Dictionary>,
    manuscript: Document,
    mpage: Dictionary,
    canvas: Size,
    flip: bool,
)
    requires
        page_composed(o1, pid, tree, template_ops, tres, manuscript, mpage, canvas, flip),
        keeps_objects(o1.objects@, o2.objects@),
    ensures
        page_composed(o2, pid, tree, template_ops, tres, manuscript, mpage, canvas, flip),
        o2.spec_object(pid) == o1.spec_object(pid),
{
    let (tx, ty) = placement(canvas, media_corners(mpage)->0, flip);
    assert(o2.objects@[pid.index()] == o1.objects@[pid.index()]);
    let pd = o1.spec_object(pid)->Dictionary_0;
    let cs = choose|cs: ObjectId|
        #![auto]
        pd.spec_has("Contents"@, Value::Reference(cs)) && o1.resolves(cs) && (o1.spec_object(cs) matches Value::Stream(
            st,
        ) && st.content matches StreamContent::Operations(ops) && page_drawn(ops@, template_ops, tx, ty, flip));
    assert(o2.objects@[cs.index()] == o1.objects@[cs.index()]);
    let (fm, res, rv) = choose|fm: ObjectId, res: Dictionary, rv: Value|
        #[trigger] form_parts(o1, pd, fm, res, rv, tres, manuscript, mpage);
    let (base, ov) = choose|base: Dictionary, ov: Dictionary|
        #[trigger] merged_with(res, base, ov) && binds_only_form(ov, fm) && template_base(o1, base, tres);
    if let Some(d) = tres {
        lemma_renamed_kept(o1, o2, Value::Dictionary(base), Value::Dictionary(d));
    }
    assert(form_bound(o2, res, fm, tres));
    if let Some(v) = mpage.spec_get("Resources"@) {
        lemma_renamed_kept(o1, o2, rv, v);
    }
    assert(form_resources(o2, rv, mpage.spec_get("Resources"@)));
    assert(o2.objects@[fm.index()] == o1.objects@[fm.index()]);
    assert(o2.resolves(cs) && o2.spec_object(cs) == o1.spec_object(cs));
    assert(o2.resolves(fm) && o2.spec_object(fm) == o1.spec_object(fm));
    assert(o2.resolves(pid) && o2.spec_object(pid) == o1.spec_object(pid));
    let pd2 = o2.spec_object(pid)->Dictionary_0;
    assert(pd2 == pd);
    assert(pd2.spec_has("Contents"@, Value::Reference(cs)) && o2.resolves(cs) && (o2.spec_object(cs) matches Value::Stream(
            st,
        ) && st.content matches StreamContent::Operations(ops) && page_drawn(ops@, template_ops, tx, ty, flip)));
    assert(form_parts(o2, pd2, fm, res, rv, tres, manuscript, mpage));
}

/// A composed document, and whether the drawing operations of each page were
/// read in full.
#[derive(Debug)]
pub struct Composed {
    pub document: Document,
    /// For each manuscript page, in order: every content stream was read.
    pub pages_read: Vec<bool>,
    /// Every content stream of the template page was read.
    pub template_read: bool,
    /// For each manuscript page, in order: the template's XObject class is
    /// not an inline table, so the merge kept it and deferred the form's
    /// binding.
    pub pages_deferred: Vec<bool>,
}

/// Composes a fresh document: one page per manuscript page, in the order of
/// `pages`, each showing the manuscript page as a form centered on a canvas
/// of size `canvas` over the drawing of the template page.
///
/// Objects that the template's resources reference are copied once for the
/// whole document, as are the manuscript's. The pages hang from one page-tree
/// node, object 1, which the catalog names; the manuscript's document
/// information is copied along.
pub fn compose(
    template: &Document,
    template_page: ObjectId,
    manuscript: &Document,
    pages: &Vec<ObjectId>,
    canvas: Size,
    flip: bool,
) -> (r: Result<Composed, Error>)
    requires
        template.objects@.len() + manuscript.objects@.len() + 3 * pages@.len() + 8 < u32::MAX,
        canvas.valid(),
    ensures
        r matches Err(e) ==> match e {
            Error::NotAPage(p) => p == template_page || pages@.contains(p),
            Error::BadMediaBox(p) => pages@.contains(p),
            Error::DanglingReference(id) => !template.resolves(id) || !manuscript.resolves(id),
            _ => false,
        },
        closed(*template) && closed(*manuscript) && template.resolves(template_page)
            && template.spec_object(template_page) is Dictionary
            && all_refs(template.spec_object(template_page), resolvable(*template))
            && (forall|i: int| 0 <= i < pages@.len() ==> sound_page(*manuscript, #[trigger] pages@[i]))
            && (manuscript.info matches Some(id) ==> manuscript.resolves(id)) ==> r is Ok,
        r matches Ok(c) ==> {
            let out = c.document;
            let tree = ObjectId(1);
            let tpage = template.spec_object(template_page)->Dictionary_0;
            &&& template.resolves(template_page) && template.spec_object(template_page) is Dictionary
            &&& c.template_read == contents_complete(*template, tpage.spec_get("Contents"@))
            &&& c.pages_read@.len() == pages@.len()
            &&& c.pages_deferred@.len() == pages@.len()
            &&& forall|i: int| 0 <= i < pages@.len() ==> #[trigger] c.pages_read@[i] == contents_complete(
                *manuscript,
                manuscript.spec_object(pages@[i])->Dictionary_0.spec_get("Contents"@),
            )
            &&& out.root matches Some(cat) && out.resolves(cat) && (out.spec_object(cat) matches Value::Dictionary(c)
                && c.spec_has("Pages"@, Value::Reference(tree)))
            &&& manuscript.info is Some ==> out.info is Some
            &&& out.resolves(tree)
            &&& out.spec_object(tree) matches Value::Dictionary(t) && t.spec_has("Count"@, Value::Integer(pages@.len() as i64))
                && exists|kids: Vec<Value>|
                #![auto]
                t.spec_has("Kids"@, Value::Array(kids)) && kids.len() == pages@.len() && forall|i: int|
                    0 <= i < kids.len() ==> (#[trigger] kids@[i] matches Value::Reference(p) && page_composed(
                        out,
                        p,
                        tree,
                        contents_ops(*template, tpage.spec_get("Contents"@)),
                        resolved_dict(*template, tpage.spec_get("Resources"@)),
                        *manuscript,
                        manuscript.spec_object(pages@[i])->Dictionary_0,
                        canvas,
                        flip,
                    ) && c.pages_deferred@[i] == xobject_deferred(out, p))
        },
{
    let tpage = match template.get_object(template_page) {
        Some(Value::Dictionary(d)) => d,
        _ => return Err(Error::NotAPage(template_page)),
    };
    let ghost tops = contents_ops(*template, tpage.spec_get("Contents"@));
    let ghost tres_g = resolved_dict(*template, tpage.spec_get("Resources"@));
    let mut out = Document::new();
    let tree = out.add_object(Value::Null);
    let mut tcache = CopyCache::new(template);
    let mut mcache = CopyCache::new(manuscript);
    proof {
        lemma_count_none_le(tcache.slots@);
        lemma_count_none_le(mcache.slots@);
        assert forall|x: ObjectId| #[trigger] crate::transplant::slot_of(tcache.slots@, x) is None by {}
        assert forall|x: ObjectId| #[trigger] crate::transplant::slot_of(mcache.slots@, x) is None by {}
    }
    let (_, template_read) = read_operations(template, tpage.get("Contents"));
    let mut kids: Vec<Value> = Vec::new();
    let mut pages_read: Vec<bool> = Vec::new();
    let mut pages_deferred: Vec<bool> = Vec::new();
    let mut i: usize = 0;
    while i < pages.len()
        invariant
            0 <= i <= pages@.len(),
            pages_read@.len() == i,
            pages_deferred@.len() == i,
            forall|j: int| 0 <= j < i ==> (#[trigger] kids@[j] matches Value::Reference(p) && pages_deferred@[j] == xobject_deferred(out, p)),
            forall|j: int| 0 <= j < i ==> #[trigger] pages_read@[j] == contents_complete(
                *manuscript,
                manuscript.spec_object(pages@[j])->Dictionary_0.spec_get("Contents"@),
            ),
            tree == ObjectId(1),
            out.objects@.len() >= 2,
            out.objects@[1] == Some(Value::Null),
            out.root is None,
            out.info is None,
            tcache.slots@.len() == template.objects@.len(),
            mcache.slots@.len() == manuscript.objects@.len(),
            cache_valid(out.objects@, tcache.slots@),
            cache_valid(out.objects@, mcache.slots@),
            out.objects@.len() + count_none(tcache.slots@) + count_none(mcache.slots@) + 3 * (pages@.len() - i) + 6 < u32::MAX,
            kids@.len() == i,
            canvas.valid(),
            tpage == template.spec_object(template_page)->Dictionary_0,
            tops == contents_ops(*template, tpage.spec_get("Contents"@)),
            tres_g == resolved_dict(*template, tpage.spec_get("Resources"@)),
            forall|j: int|
                0 <= j < i ==> (#[trigger] kids@[j] matches Value::Reference(p) && 2 <= p.index() && page_composed(
                    out,
                    p,
                    tree,
                    tops,
                    tres_g,
                    *manuscript,
                    manuscript.spec_object(pages@[j])->Dictionary_0,
                    canvas,
                    flip,
                )),
        decreases pages@.len() - i,
    {
        let ghost before = out;
        let (pid, read, deferred) = match compose_page(&mut out, template, &mut tcache, tpage, manuscript, &mut mcache, pages[i], canvas, flip, tree) {
            Ok(found) => found,
            Err(e) => {
                proof {
                    assert(pages@[i as int] == pages@[i as int]);
                    assert(pages@.contains(pages@[i as int]));
                }
                return Err(e);
            },
        };
        proof {
            assert(keeps_objects(before.objects@, out.objects@));
            assert forall|j: int|
                0 <= j < i implies (#[trigger] kids@[j] matches Value::Reference(p) && 2 <= p.index() && page_composed(
                    out,
                    p,
                    tree,
                    tops,
                    tres_g,
                    *manuscript,
                    manuscript.spec_object(pages@[j])->Dictionary_0,
                    canvas,
                    flip,
                )) by {
                let p = kids@[j]->Reference_0;
                lemma_page_composed_kept(before, out, p, tree, tops, tres_g, *manuscript, manuscript.spec_object(pages@[j])->Dictionary_0, canvas, flip);
            }
        }
        kids.push(Value::Reference(pid));
        pages_read.push(read);
        pages_deferred.push(deferred);
        i = i + 1;
    }
    // Document information, copied with what it references.
    let ghost before_info = out;
    if let Some(info) = manuscript.info {
        match transplant(manuscript, &Value::Reference(info), &mut out, &mut mcache) {
            Ok(Value::Reference(t)) => {
                out.info = Some(t);
            },
            Ok(_) => {},
            Err(e) => return Err(e),
        }
    }
    let n = kids.len();
    let ghost kids_g = kids;
    let mut node: Vec<(String, Value)> = Vec::new();
    node.push(entry("Type", Value::Name("Pages".to_owned())));
    node.push(entry("Kids", Value::Array(kids)));
    node.push(entry("Count", Value::Integer(n as i64)));
    let ghost node_g = Dictionary { entries: node };
    let ghost before_tree = out;
    out.set_object(tree, Value::Dictionary(Dictionary { entries: node }));
    let mut catalog: Vec<(String, Value)> = Vec::new();
    catalog.push(entry("Type", Value::Name("Catalog".to_owned())));
    catalog.push(entry("Pages", Value::Reference(tree)));
    let ghost catalog_g = Dictionary { entries: catalog };
    let cat = out.add_object(Value::Dictionary(Dictionary { entries: catalog }));
    out.root = Some(cat);
    proof {
        assert(keeps_objects(before_info.objects@, before_tree.objects@));
        assert(keeps_objects(before_info.objects@, out.objects@));
        assert(node_g.entries@[1].0@ == "Kids"@ && node_g.entries@[2].0@ == "Count"@);
        assert(node_g.spec_has("Kids"@, Value::Array(kids_g)));
        assert(node_g.spec_has("Count"@, Value::Integer(pages@.len() as i64)));
        assert(catalog_g.entries@[1].0@ == "Pages"@);
        assert(catalog_g.spec_has("Pages"@, Value::Reference(tree)));
        assert(out.spec_object(tree) == Value::Dictionary(node_g));
        assert(out.spec_object(cat) == Value::Dictionary(catalog_g));
        assert forall|j: int| 0 <= j < kids_g.len() implies (#[trigger] kids_g@[j] matches Value::Reference(p) && page_composed(
                        out,
                        p,
                        tree,
                        tops,
                        tres_g,
                        *manuscript,
                        manuscript.spec_object(pages@[j])->Dictionary_0,
                        canvas,
                        flip,
                    )) by {
            let p = kids_g@[j]->Reference_0;
            lemma_page_composed_kept(before_info, out, p, tree, tops, tres_g, *manuscript, manuscript.spec_object(pages@[j])->Dictionary_0, canvas, flip);
        }
        assert forall|j: int| 0 <= j < kids_g.len() implies (#[trigger] kids_g@[j] matches Value::Reference(p)
            && pages_deferred@[j] == xobject_deferred(out, p)) by {
            let p = kids_g@[j]->Reference_0;
            lemma_page_composed_kept(before_info, out, p, tree, tops, tres_g, *manuscript, manuscript.spec_object(pages@[j])->Dictionary_0, canvas, flip);
        }
    }
    Ok(Composed { document: out, pages_read, template_read, pages_deferred })
}

} // verus!
