//! The drawing operations of the overlay: crop marks, a timestamp and a page number.
use vstd::prelude::*;
use crate::geometry::{scaled, scaled_number};
use crate::object::{Operation, Value};

verus! {

/// Gap between the trim edge and a crop mark: 5 pt, in units of 1/100000 point.
pub const MARK_OFFSET: i64 = 500_000;

/// Length of a crop mark: 20 pt, in units of 1/100000 point.
pub const MARK_LENGTH: i64 = 2_000_000;

/// Distance of the footer text from the page edges: 28.35 pt (1 cm), in units of 1/100000 point.
pub const FOOTER_MARGIN: i64 = 2_835_000;

/// `op` is operator `name` applied to numbers that, in units of 1/100000, are `args`.
pub open spec fn numeric_op(op: Operation, name: Seq<char>, args: Seq<int>) -> bool {
    &&& op.operator@ == name
    &&& op.operands.len() == args.len()
    &&& forall|i: int| 0 <= i < args.len() ==> scaled(#[trigger] op.operands@[i], 5) == Some(args[i])
}

/// Builds operator `name` applied to the numbers `args`, in units of 1/100000.
pub fn make_op(name: &str, args: Vec<i64>) -> (r: Operation)
    ensures
        numeric_op(r, name@, args@.map_values(|a: i64| a as int)),
{
    let mut operands: Vec<Value> = Vec::new();
    let mut i: usize = 0;
    while i < args.len()
        invariant
            0 <= i <= args@.len(),
            operands@.len() == i,
            forall|j: int| 0 <= j < i ==> scaled(#[trigger] operands@[j], 5) == Some(args@[j] as int),
        decreases args@.len() - i,
    {
        operands.push(scaled_number(args[i]));
        i = i + 1;
    }
    Operation { operator: name.to_owned(), operands }
}

/// The eight crop-mark segments `(x1, y1, x2, y2)` around the trim box with
/// lower-left corner `(x, y)` and size `w × h`, all in units of 1/100000 point:
/// at each corner one horizontal and one vertical mark, set off from the edge.
pub open spec fn crop_segments(x: int, y: int, w: int, h: int) -> Seq<(int, int, int, int)> {
    let (left, right, bottom, top) = (x, x + w, y, y + h);
    let (off, len) = (MARK_OFFSET as int, MARK_LENGTH as int);
    seq![
        (left - off - len, bottom, left - off, bottom),
        (left, bottom - off - len, left, bottom - off),
        (right + off, bottom, right + off + len, bottom),
        (right, bottom - off - len, right, bottom - off),
        (left - off - len, top, left - off, top),
        (left, top + off, left, top + off + len),
        (right + off, top, right + off + len, top),
        (right, top + off, right, top + off + len),
    ]
}

/// `ops` draws the crop marks: line width 0.5, black stroke, then each
/// segment as a move, a line and a stroke.
pub open spec fn crop_marks_drawn(ops: Seq<Operation>, x: int, y: int, w: int, h: int) -> bool {
    let segs = crop_segments(x, y, w, h);
    &&& ops.len() == 26
    &&& numeric_op(ops[0], "w"@, seq![50000])
    &&& numeric_op(ops[1], "G"@, seq![0])
    &&& forall|s: int|
        0 <= s < 8 ==> {
            &&& numeric_op(#[trigger] ops[2 + 3 * s], "m"@, seq![segs[s].0, segs[s].1])
            &&& numeric_op(ops[3 + 3 * s], "l"@, seq![segs[s].2, segs[s].3])
            &&& numeric_op(ops[4 + 3 * s], "S"@, seq![])
        }
}

/// The operations that draw crop marks around the trim box with lower-left
/// corner `(x, y)` and size `w × h`, in units of 1/100000 point.
pub fn generate_crop_marks(x: i64, y: i64, w: i64, h: i64) -> (r: Vec<Operation>)
    requires
        -10_000_000_000_000 <= x <= 10_000_000_000_000,
        -10_000_000_000_000 <= y <= 10_000_000_000_000,
        0 <= w <= 10_000_000_000_000,
        0 <= h <= 10_000_000_000_000,
    ensures
        crop_marks_drawn(r@, x as int, y as int, w as int, h as int),
{
    let left = x;
    let right = x + w;
    let bottom = y;
    let top = y + h;
    let off = MARK_OFFSET;
    let len = MARK_LENGTH;
    let far_left = left - off - len;
    let near_left = left - off;
    let near_right = right + off;
    let far_right = right + off + len;
    let far_bottom = bottom - off - len;
    let near_bottom = bottom - off;
    let near_top = top + off;
    let far_top = top + off + len;
    let segs: Vec<(i64, i64, i64, i64)> = vec![
        (far_left, bottom, near_left, bottom),
        (left, far_bottom, left, near_bottom),
        (near_right, bottom, far_right, bottom),
        (right, far_bottom, right, near_bottom),
        (far_left, top, near_left, top),
        (left, near_top, left, far_top),
        (near_right, top, far_right, top),
        (right, near_top, right, far_top),
    ];
    let ghost spec_segs = crop_segments(x as int, y as int, w as int, h as int);
    assert(forall|s: int| 0 <= s < 8 ==> #[trigger] spec_segs[s] == (segs@[s].0 as int, segs@[s].1 as int, segs@[s].2 as int, segs@[s].3 as int));
    let mut ops: Vec<Operation> = Vec::new();
    let op = make_op("w", vec![50000]);
    assert(seq![50000i64].map_values(|a: i64| a as int) =~= seq![50000int]);
    ops.push(op);
    let op = make_op("G", vec![0]);
    assert(seq![0i64].map_values(|a: i64| a as int) =~= seq![0int]);
    ops.push(op);
    let mut s: usize = 0;
    while s < 8
        invariant
            0 <= s <= 8,
            segs@.len() == 8,
            forall|t: int| 0 <= t < 8 ==> #[trigger] spec_segs[t] == (segs@[t].0 as int, segs@[t].1 as int, segs@[t].2 as int, segs@[t].3 as int),
            ops@.len() == 2 + 3 * s,
            numeric_op(ops@[0], "w"@, seq![50000]),
            numeric_op(ops@[1], "G"@, seq![0]),
            forall|t: int|
                0 <= t < s ==> {
                    &&& numeric_op(#[trigger] ops@[2 + 3 * t], "m"@, seq![spec_segs[t].0, spec_segs[t].1])
                    &&& numeric_op(ops@[3 + 3 * t], "l"@, seq![spec_segs[t].2, spec_segs[t].3])
                    &&& numeric_op(ops@[4 + 3 * t], "S"@, seq![])
                },
        decreases 8 - s,
    {
        let (x1, y1, x2, y2) = segs[s];
        let m = make_op("m", vec![x1, y1]);
        let l = make_op("l", vec![x2, y2]);
        let st = make_op("S", vec![]);
        assert(seq![x1, y1].map_values(|a: i64| a as int) =~= seq![spec_segs[s as int].0, spec_segs[s as int].1]);
        assert(seq![x2, y2].map_values(|a: i64| a as int) =~= seq![spec_segs[s as int].2, spec_segs[s as int].3]);
        assert(Seq::<i64>::empty().map_values(|a: i64| a as int) =~= Seq::<int>::empty());
        ops.push(m);
        ops.push(l);
        ops.push(st);
        s = s + 1;
    }
    ops
}


/// The advance of one character of a monospaced font: `advance` font units
/// out of `units_per_em` per em.
#[derive(Clone, Copy, PartialEq, Eq, Structural, Debug)]
pub struct GlyphWidth {
    pub advance: u16,
    pub units_per_em: u16,
}

/// `op` takes no operands.
pub open spec fn bare_op(op: Operation, name: Seq<char>) -> bool {
    op.operator@ == name && op.operands.len() == 0
}

/// `ops` shows `text` in the font named `font` at 10 pt from position `(x, y)`
/// (units of 1/100000 point): begin text, select font, move, show, end text.
pub open spec fn text_drawn(ops: Seq<Operation>, font: Seq<char>, text: Seq<u8>, x: int, y: int) -> bool {
    &&& ops.len() == 5
    &&& bare_op(ops[0], "BT"@)
    &&& ops[1].operator@ == "Tf"@ && ops[1].operands.len() == 2
    &&& ops[1].operands@[0] matches Value::Name(n) && n@ == font
    &&& ops[1].operands@[1] == Value::Integer(10)
    &&& numeric_op(ops[2], "Td"@, seq![x, y])
    &&& ops[3].operator@ == "Tj"@ && ops[3].operands.len() == 1
    &&& ops[3].operands@[0] matches Value::String(b) && b@ == text
    &&& bare_op(ops[4], "ET"@)
}

/// The operations that show `text` at `(x, y)`, in units of 1/100000 point.
fn draw_text(font_name: &str, text: Vec<u8>, x: i64, y: i64) -> (r: Vec<Operation>)
    ensures
        text_drawn(r@, font_name@, text@, x as int, y as int),
{
    let mut ops: Vec<Operation> = Vec::new();
    let begin = make_op("BT", vec![]);
    assert(Seq::<i64>::empty().map_values(|a: i64| a as int) =~= Seq::<int>::empty());
    ops.push(begin);
    let mut tf_operands: Vec<Value> = Vec::new();
    tf_operands.push(Value::Name(font_name.to_owned()));
    tf_operands.push(Value::Integer(10));
    ops.push(Operation { operator: "Tf".to_owned(), operands: tf_operands });
    let td = make_op("Td", vec![x, y]);
    assert(seq![x, y].map_values(|a: i64| a as int) =~= seq![x as int, y as int]);
    ops.push(td);
    let mut tj_operands: Vec<Value> = Vec::new();
    tj_operands.push(Value::String(text));
    ops.push(Operation { operator: "Tj".to_owned(), operands: tj_operands });
    let end = make_op("ET", vec![]);
    ops.push(end);
    ops
}

/// The operations that show the timestamp at the bottom left, 1 cm from both
/// edges, in the font bound to `font_name`.
pub fn generate_datetime(timestamp: &[u8], font_name: &str) -> (r: Vec<Operation>)
    ensures
        text_drawn(r@, font_name@, timestamp@, FOOTER_MARGIN as int, FOOTER_MARGIN as int),
{
    let text = vstd::slice::slice_to_vec(timestamp);
    draw_text(font_name, text, FOOTER_MARGIN, FOOTER_MARGIN)
}

/// `n` in at least `width` decimal digits, with leading zeros.
pub open spec fn padded_digits(n: nat, width: nat) -> Seq<u8> {
    let d = decimal_digits(n);
    if d.len() < width {
        Seq::new((width - d.len()) as nat, |i: int| 48u8) + d
    } else {
        d
    }
}

/// A date and time as `YYYY-MM-DD HH:MM:SS ZONE`.
pub open spec fn timestamp_text(
    year: nat,
    month: nat,
    day: nat,
    hour: nat,
    minute: nat,
    second: nat,
    zone: Seq<u8>,
) -> Seq<u8> {
    padded_digits(year, 4) + seq![45u8] + padded_digits(month, 2) + seq![45u8] + padded_digits(day, 2) + seq![32u8]
        + padded_digits(hour, 2) + seq![58u8] + padded_digits(minute, 2) + seq![58u8] + padded_digits(second, 2)
        + seq![32u8] + zone
}

/// `n` in at least `width` decimal digits, with leading zeros.
pub fn pad_digits(n: u64, width: usize) -> (r: Vec<u8>)
    requires
        width <= 20,
    ensures
        r@ == padded_digits(n as nat, width as nat),
{
    let d = digits(n);
    if d.len() < width {
        let mut out: Vec<u8> = Vec::new();
        let zeros = width - d.len();
        let mut i: usize = 0;
        while i < zeros
            invariant
                0 <= i <= zeros,
                out@ =~= Seq::new(i as nat, |j: int| 48u8),
            decreases zeros - i,
        {
            out.push(48u8);
            i = i + 1;
        }
        let mut rest = d;
        out.append(&mut rest);
        out
    } else {
        d
    }
}

/// The footer timestamp for a date and time and a zone abbreviation, as
/// `YYYY-MM-DD HH:MM:SS ZONE`.
pub fn format_timestamp(year: u64, month: u64, day: u64, hour: u64, minute: u64, second: u64, zone: &[u8]) -> (r: Vec<u8>)
    ensures
        r@ == timestamp_text(year as nat, month as nat, day as nat, hour as nat, minute as nat, second as nat, zone@),
{
    let mut out = pad_digits(year, 4);
    out.push(45u8);
    let mut part = pad_digits(month, 2);
    out.append(&mut part);
    out.push(45u8);
    let mut part = pad_digits(day, 2);
    out.append(&mut part);
    out.push(32u8);
    let mut part = pad_digits(hour, 2);
    out.append(&mut part);
    out.push(58u8);
    let mut part = pad_digits(minute, 2);
    out.append(&mut part);
    out.push(58u8);
    let mut part = pad_digits(second, 2);
    out.append(&mut part);
    out.push(32u8);
    let mut z = vstd::slice::slice_to_vec(zone);
    out.append(&mut z);
    assert(out@ =~= timestamp_text(year as nat, month as nat, day as nat, hour as nat, minute as nat, second as nat, zone@));
    out
}

/// The decimal digits of `n`, as ASCII bytes.
pub open spec fn decimal_digits(n: nat) -> Seq<u8>
    decreases n,
{
    if n < 10 {
        seq![(48 + n) as u8]
    } else {
        decimal_digits(n / 10).push((48 + n % 10) as u8)
    }
}

proof fn lemma_digits_len_bound(n: nat)
    ensures
        decimal_digits(n).len() >= 1,
        pow10_nat((decimal_digits(n).len() - 1) as nat) <= n || n == 0,
    decreases n,
{
    if n >= 10 {
        lemma_digits_len_bound(n / 10);
        let k = (decimal_digits(n / 10).len() - 1) as nat;
        assert(decimal_digits(n).len() == decimal_digits(n / 10).len() + 1);
        assert(pow10_nat(k + 1) == 10 * pow10_nat(k));
        assert(10 * pow10_nat(k) <= n) by (nonlinear_arith)
            requires
                pow10_nat(k) <= n / 10,
        ;
    } else {
        assert(pow10_nat(0) == 1);
    }
}

spec fn pow10_nat(k: nat) -> nat
    decreases k,
{
    if k == 0 {
        1
    } else {
        10 * pow10_nat((k - 1) as nat)
    }
}

/// The decimal digits of `n`.
pub fn digits(n: u64) -> (r: Vec<u8>)
    ensures
        r@ == decimal_digits(n as nat),
    decreases n,
{
    if n < 10 {
        let mut v: Vec<u8> = Vec::new();
        v.push((48 + n) as u8);
        v
    } else {
        let mut v = digits(n / 10);
        v.push((48 + n % 10) as u8);
        v
    }
}

/// Where the page number starts: right-aligned 1 cm from the right edge of a
/// page `page_width` wide (units of 1/10000 point), `len` characters of width
/// `gw` at 10 pt, rounded down to a unit of 1/100000 point.
pub open spec fn page_number_x(page_width: int, len: int, gw: GlyphWidth) -> int {
    page_width * 10 - FOOTER_MARGIN - (len * gw.advance * 1_000_000) / (gw.units_per_em as int)
}

/// The operations that show `page_num` at the bottom right, 1 cm from both
/// edges, in the font bound to `font_name`.
pub fn generate_page_number(page_num: u64, page_width: i64, font_name: &str, gw: GlyphWidth) -> (r: Vec<Operation>)
    requires
        0 <= page_width <= crate::geometry::MAX_LENGTH,
        gw.units_per_em > 0,
    ensures
        text_drawn(
            r@,
            font_name@,
            decimal_digits(page_num as nat),
            page_number_x(page_width as int, decimal_digits(page_num as nat).len() as int, gw),
            FOOTER_MARGIN as int,
        ),
{
    let text = digits(page_num);
    proof {
        lemma_digits_count(page_num as nat);
    }
    let len = text.len() as i64;
    let adv = gw.advance as i64;
    assert(0 <= len * adv <= 20 * 65535) by (nonlinear_arith)
        requires
            0 <= len <= 20,
            0 <= adv <= 65535,
    ;
    let wide = len * adv * 1_000_000;
    let text_width = wide / (gw.units_per_em as i64);
    let x = page_width * 10 - FOOTER_MARGIN - text_width;
    draw_text(font_name, text, x, FOOTER_MARGIN)
}

/// A `u64` has at most 20 decimal digits.
proof fn lemma_digits_count(n: nat)
    requires
        n <= u64::MAX,
    ensures
        decimal_digits(n).len() <= 20,
{
    lemma_digits_len_bound(n);
    if decimal_digits(n).len() > 20 {
        lemma_pow10_grows(20, (decimal_digits(n).len() - 1) as nat);
        reveal_with_fuel(pow10_nat, 21);
        assert(pow10_nat(20) == 100_000_000_000_000_000_000);
    }
}

proof fn lemma_pow10_grows(a: nat, b: nat)
    requires
        a <= b,
    ensures
        pow10_nat(a) <= pow10_nat(b),
    decreases b,
{
    if a < b {
        lemma_pow10_grows(a, (b - 1) as nat);
    }
}

} // verus!
