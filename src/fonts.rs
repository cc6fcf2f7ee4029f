//! Embedding the footer font: its file, descriptor and font dictionary.
use vstd::prelude::*;
use crate::object::{Dictionary, Document, Error, ObjectId, Stream, StreamContent, Value, entry, name_value};
use crate::overlay::GlyphWidth;

verus! {

/// The metrics of a font face that embedding needs, in font units.
#[derive(Clone, Copy, PartialEq, Eq, Structural, Debug)]
pub struct FontMetrics {
    pub x_min: i16,
    pub y_min: i16,
    pub x_max: i16,
    pub y_max: i16,
    pub ascender: i16,
    pub descender: i16,
    pub cap_height: Option<i16>,
    pub units_per_em: u16,
    /// The horizontal advance of the digit zero.
    pub zero_advance: Option<u16>,
}

/// The metrics read from the bytes of a font file, `None` where the bytes do not parse.
pub uninterp spec fn parsed_metrics(data: Seq<u8>) -> Option<FontMetrics>;

/// Relies on `ttf_parser::Face::parse` (face index 0) and the face's metric
/// accessors: the result depends on the bytes alone, and `units_per_em` is
/// documented to lie in 16..=16384.
#[verifier::external_body]
fn read_metrics(data: &[u8]) -> (r: Option<FontMetrics>)
    ensures
        r == parsed_metrics(data@),
        r matches Some(m) ==> 16 <= m.units_per_em <= 16384,
{
    match ttf_parser::Face::parse(data, 0) {
        Ok(face) => {
            let b = face.global_bounding_box();
            let zero_advance = face.glyph_index('0').and_then(|g| face.glyph_hor_advance(g));
            Some(FontMetrics {
                x_min: b.x_min, y_min: b.y_min, x_max: b.x_max, y_max: b.y_max,
                ascender: face.ascender(), descender: face.descender(),
                cap_height: face.capital_height(), units_per_em: face.units_per_em(), zero_advance,
            })
        },
        Err(_) => None,
    }
}

/// The advance written for every character: the digit zero's, 600 where the font has none.
pub open spec fn advance_of(m: FontMetrics) -> u16 {
    match m.zero_advance {
        Some(a) => a,
        None => 600,
    }
}

/// The first and last character codes that the font dictionary describes.
pub const FIRST_CHAR: i64 = 32;
pub const LAST_CHAR: i64 = 126;

/// The cap height written: the font's, 700 where it has none.
pub open spec fn cap_height_of(m: FontMetrics) -> i64 {
    match m.cap_height {
        Some(c) => c as i64,
        None => 700,
    }
}

/// The name under which the font is embedded.
pub open spec fn base_font() -> Seq<char> {
    "Inconsolata-Regular"@
}

/// `desc` describes a font with metrics `m` whose file is object `file`.
pub open spec fn descriptor_written(desc: Dictionary, m: FontMetrics, file: int) -> bool {
    &&& desc.entries.len() == 10
    &&& desc.spec_has_name("Type"@, "FontDescriptor"@)
    &&& desc.spec_has_name("FontName"@, base_font())
    &&& desc.spec_has("Flags"@, Value::Integer(32))
    &&& desc.spec_has_array(
        "FontBBox"@,
        seq![
            Value::Integer(m.x_min as i64),
            Value::Integer(m.y_min as i64),
            Value::Integer(m.x_max as i64),
            Value::Integer(m.y_max as i64),
        ],
    )
    &&& desc.spec_has("ItalicAngle"@, Value::Integer(0))
    &&& desc.spec_has("Ascent"@, Value::Integer(m.ascender as i64))
    &&& desc.spec_has("Descent"@, Value::Integer(m.descender as i64))
    &&& desc.spec_has("CapHeight"@, Value::Integer(cap_height_of(m)))
    &&& desc.spec_has("StemV"@, Value::Integer(80))
    &&& desc.spec_has("FontFile2"@, Value::Reference(ObjectId(file as u32)))
}

/// `font` is a simple TrueType font with the standard Windows encoding,
/// described by object `descriptor`, every character as wide as `advance`.
pub open spec fn font_dict_written(font: Dictionary, advance: u16, descriptor: int) -> bool {
    &&& font.entries.len() == 8
    &&& font.spec_has_name("Type"@, "Font"@)
    &&& font.spec_has_name("Subtype"@, "TrueType"@)
    &&& font.spec_has_name("BaseFont"@, base_font())
    &&& font.spec_has("FontDescriptor"@, Value::Reference(ObjectId(descriptor as u32)))
    &&& font.spec_has_name("Encoding"@, "WinAnsiEncoding"@)
    &&& font.spec_has("FirstChar"@, Value::Integer(FIRST_CHAR))
    &&& font.spec_has("LastChar"@, Value::Integer(LAST_CHAR))
    &&& font.spec_has_array("Widths"@, Seq::new((LAST_CHAR - FIRST_CHAR + 1) as nat, |i: int| Value::Integer(advance as i64)))
}

/// Objects `n`, `n + 1` and `n + 2` of `doc` embed the font in `data`: its
/// file, with the bytes as they are, its descriptor and its font dictionary.
pub open spec fn font_embedded(doc: Document, n: int, data: Seq<u8>) -> bool {
    let m = parsed_metrics(data)->0;
    &&& parsed_metrics(data) is Some
    &&& doc.objects@.len() >= n + 3
    &&& doc.objects@[n] matches Some(Value::Stream(st)) && st.content matches StreamContent::Bytes(b) && b@ == data
        && st.dict.entries.len() == 1 && st.dict.spec_has("Length1"@, Value::Integer(data.len() as i64))
    &&& doc.objects@[n + 1] matches Some(Value::Dictionary(desc)) && descriptor_written(desc, m, n)
    &&& doc.objects@[n + 2] matches Some(Value::Dictionary(font)) && font_dict_written(font, advance_of(m), n + 1)
}

/// Embeds the TrueType font in `font_data` into `doc` as a simple font with
/// the standard Windows encoding, every character as wide as the digit zero.
///
/// Adds three objects: the font file stream, its descriptor and the font
/// dictionary; returns the font dictionary's identifier and the width of a
/// character. Fails with `UnreadableFont` exactly when the bytes do not parse.
pub fn embed_font(doc: &mut Document, font_data: Vec<u8>) -> (r: Result<(ObjectId, GlyphWidth), Error>)
    requires
        old(doc).objects@.len() + 3 < u32::MAX,
    ensures
        parsed_metrics(font_data@) is None <==> r == Err::<(ObjectId, GlyphWidth), Error>(Error::UnreadableFont),
        r is Ok <==> parsed_metrics(font_data@) is Some,
        r is Ok ==> 16 <= parsed_metrics(font_data@)->0.units_per_em <= 16384,
        r is Err ==> *final(doc) == *old(doc),
        r matches Ok((font_id, gw)) ==> {
            let m = parsed_metrics(font_data@)->0;
            let n = old(doc).objects@.len() as int;
            &&& final(doc).objects@.len() == n + 3
            &&& forall|i: int| 0 <= i < n ==> final(doc).objects@[i] == old(doc).objects@[i]
            &&& final(doc).root == old(doc).root
            &&& final(doc).info == old(doc).info
            &&& font_id.index() == n + 2
            &&& gw == GlyphWidth { advance: advance_of(m), units_per_em: m.units_per_em }
            &&& font_embedded(*final(doc), n, font_data@)
        },
{
    let m = match read_metrics(font_data.as_slice()) {
        Some(m) => m,
        None => return Err(Error::UnreadableFont),
    };
    let cap_height: i64 = match m.cap_height {
        Some(c) => c as i64,
        None => 700,
    };
    let advance: u16 = match m.zero_advance {
        Some(a) => a,
        None => 600,
    };
    let mut widths: Vec<Value> = Vec::new();
    let mut c: i64 = FIRST_CHAR;
    while c <= LAST_CHAR
        invariant
            FIRST_CHAR <= c <= LAST_CHAR + 1,
            widths@.len() == c - FIRST_CHAR,
            forall|i: int| 0 <= i < widths@.len() ==> widths@[i] == Value::Integer(advance as i64),
        decreases LAST_CHAR + 1 - c,
    {
        widths.push(Value::Integer(advance as i64));
        c = c + 1;
    }
    let ghost n = doc.objects@.len() as int;
    let ghost data = font_data@;
    let length: i64 = #[verifier::truncate] (font_data.len() as i64);
    let mut file_dict: Vec<(String, Value)> = Vec::new();
    file_dict.push(entry("Length1", Value::Integer(length)));
    let file = Stream { dict: Dictionary { entries: file_dict }, content: StreamContent::Bytes(font_data) };
    assert(file.dict.entries@[0].0@ == "Length1"@);
    assert(file.dict.spec_has("Length1"@, Value::Integer(data.len() as i64)));
    let font_stream_id = doc.add_object(Value::Stream(file));
    let mut bbox: Vec<Value> = Vec::new();
    bbox.push(Value::Integer(m.x_min as i64));
    bbox.push(Value::Integer(m.y_min as i64));
    bbox.push(Value::Integer(m.x_max as i64));
    bbox.push(Value::Integer(m.y_max as i64));
    let ghost bbox_g = bbox@;
    let mut desc: Vec<(String, Value)> = Vec::new();
    desc.push(entry("Type", name_value("FontDescriptor")));
    desc.push(entry("FontName", name_value("Inconsolata-Regular")));
    desc.push(entry("Flags", Value::Integer(32)));
    desc.push(entry("FontBBox", Value::Array(bbox)));
    desc.push(entry("ItalicAngle", Value::Integer(0)));
    desc.push(entry("Ascent", Value::Integer(m.ascender as i64)));
    desc.push(entry("Descent", Value::Integer(m.descender as i64)));
    desc.push(entry("CapHeight", Value::Integer(cap_height)));
    desc.push(entry("StemV", Value::Integer(80)));
    desc.push(entry("FontFile2", Value::Reference(font_stream_id)));
    let descriptor = Dictionary { entries: desc };
    proof {
        let e = descriptor.entries@;
        assert(e[0].0@ == "Type"@ && e[1].0@ == "FontName"@ && e[2].0@ == "Flags"@ && e[3].0@ == "FontBBox"@);
        assert(e[4].0@ == "ItalicAngle"@ && e[5].0@ == "Ascent"@ && e[6].0@ == "Descent"@);
        assert(e[7].0@ == "CapHeight"@ && e[8].0@ == "StemV"@ && e[9].0@ == "FontFile2"@);
        assert(bbox_g =~= seq![
            Value::Integer(m.x_min as i64),
            Value::Integer(m.y_min as i64),
            Value::Integer(m.x_max as i64),
            Value::Integer(m.y_max as i64),
        ]);
        assert(descriptor_written(descriptor, m, n));
    }
    let descriptor_id = doc.add_object(Value::Dictionary(descriptor));
    let ghost widths_g = widths@;
    let mut font: Vec<(String, Value)> = Vec::new();
    font.push(entry("Type", name_value("Font")));
    font.push(entry("Subtype", name_value("TrueType")));
    font.push(entry("BaseFont", name_value("Inconsolata-Regular")));
    font.push(entry("FontDescriptor", Value::Reference(descriptor_id)));
    font.push(entry("Encoding", name_value("WinAnsiEncoding")));
    font.push(entry("FirstChar", Value::Integer(FIRST_CHAR)));
    font.push(entry("LastChar", Value::Integer(LAST_CHAR)));
    font.push(entry("Widths", Value::Array(widths)));
    let font_dict = Dictionary { entries: font };
    proof {
        let e = font_dict.entries@;
        assert(e[0].0@ == "Type"@ && e[1].0@ == "Subtype"@ && e[2].0@ == "BaseFont"@ && e[3].0@ == "FontDescriptor"@);
        assert(e[4].0@ == "Encoding"@ && e[5].0@ == "FirstChar"@ && e[6].0@ == "LastChar"@ && e[7].0@ == "Widths"@);
        assert(widths_g =~= Seq::new((LAST_CHAR - FIRST_CHAR + 1) as nat, |i: int| Value::Integer(advance as i64)));
        assert(font_dict_written(font_dict, advance, n + 1));
    }
    let font_id = doc.add_object(Value::Dictionary(font_dict));
    Ok((font_id, GlyphWidth { advance, units_per_em: m.units_per_em }))
}

} // verus!
