//! Paragraph classifier and segment extractor: raw word-processing markup
//! plus an order-stable asset list become a structured document.
//!
//! Every function is specified against a spec-level mirror over character
//! sequences, so the parse result is pinned exactly: paragraphs are scanned
//! in order, each paragraph's segments are extracted by nearest-marker
//! scanning, and the projection of the segments to plain text drives the
//! question/option classification.
use vstd::prelude::*;

use std::collections::HashMap;

use crate::model::{valid_label, ExtractedAsset, OptionItem, ParsedDoc, Question, Segment};
use crate::validator::{LabelRunStyle, LabeledOptionRuns};
use crate::strutil::{chars_to_string, str_to_chars};
use crate::textscan::{
    digit_run_end, digits_to_nat, find_from, first_non_space, is_at, is_digit_char, is_space,
    is_space_char, last_non_space_end, lemma_digit_run_end, lemma_first_non_space,
    lemma_last_non_space_end, lemma_spec_find, match_at, skip_spaces, spec_find, spec_trim,
    trim_chars,
};

verus! {

/// Spec-level image of one segment: the string views of its fields.
#[verifier::ext_equal]
pub enum SegView {
    Text { text: Seq<char>, raw: Seq<char> },
    Image { asset: Seq<char>, raw: Seq<char>, w: u64, h: u64 },
    Math { omml: Seq<char>, raw: Seq<char> },
}

/// The spec-level image of an executable segment.
pub open spec fn seg_view(s: Segment) -> SegView {
    match s {
        Segment::Text { text, raw_xml } => SegView::Text { text: text@, raw: raw_xml@ },
        Segment::Image { asset_path, raw_xml, width_emu, height_emu } => SegView::Image {
            asset: asset_path@,
            raw: raw_xml@,
            w: width_emu,
            h: height_emu,
        },
        Segment::Math { omml, raw_xml } => SegView::Math { omml: omml@, raw: raw_xml@ },
    }
}

/// The spec-level image of a segment list.
pub open spec fn segs_view(s: Seq<Segment>) -> Seq<SegView> {
    s.map_values(|x: Segment| seg_view(x))
}

/// The asset paths, in first-appearance order.
pub open spec fn asset_paths(assets: Seq<ExtractedAsset>) -> Seq<Seq<char>> {
    assets.map_values(|a: ExtractedAsset| a.absolute_path@)
}

/// One EMU per unit for each recognized dimension unit suffix, with pixels
/// as the default when no suffix is recognized (1 inch = 914400 EMU).
pub open spec fn unit_code_at(s: Seq<char>, at: int) -> int {
    if is_at(s, at, "pt"@) {
        0
    } else if is_at(s, at, "in"@) {
        1
    } else if is_at(s, at, "cm"@) {
        2
    } else if is_at(s, at, "mm"@) {
        3
    } else {
        4
    }
}

/// EMU value of `v` units.
pub open spec fn emu_of(v: nat, unit: int) -> nat {
    if unit == 0 {
        v * 12700
    } else if unit == 1 {
        v * 914400
    } else if unit == 2 {
        v * 360000
    } else if unit == 3 {
        v * 36000
    } else {
        v * 9525
    }
}

/// The number written right after the first occurrence of `key` at or
/// after `from`, or -1 when `key` is absent, no digits follow it, or the
/// digit run is implausibly long.
pub open spec fn num_after(s: Seq<char>, key: Seq<char>, from: int) -> int {
    let p = spec_find(s, key, from);
    if p == -1 {
        -1
    } else {
        let vs = p + key.len();
        let ve = digit_run_end(s, vs);
        if ve == vs || ve - vs > 12 {
            -1
        } else {
            digits_to_nat(s.subrange(vs, ve)) as int
        }
    }
}

/// As `num_after`, but converting a trailing unit suffix to EMU.
pub open spec fn styled_num_after(s: Seq<char>, key: Seq<char>, from: int) -> int {
    let p = spec_find(s, key, from);
    if p == -1 {
        -1
    } else {
        let vs = p + key.len();
        let ve = digit_run_end(s, vs);
        if ve == vs || ve - vs > 12 {
            -1
        } else {
            emu_of(digits_to_nat(s.subrange(vs, ve)), unit_code_at(s, ve)) as int
        }
    }
}

/// The default image size: one square inch.
pub open spec fn default_emu() -> int {
    914400
}

/// The dimensions of a drawing block, in EMU: the extent element's own
/// EMU-native attributes, then the shape transform extent, then one square
/// inch.
pub open spec fn drawing_dims(inner: Seq<char>) -> (int, int) {
    let we = spec_find(inner, "<wp:extent"@, 0);
    let cx1 = if we == -1 {
        -1
    } else {
        num_after(inner, "cx=\""@, we)
    };
    let cy1 = if we == -1 {
        -1
    } else {
        num_after(inner, "cy=\""@, we)
    };
    if cx1 >= 0 && cy1 >= 0 {
        (cx1, cy1)
    } else {
        let ae = spec_find(inner, "<a:ext"@, 0);
        let cx2 = if ae == -1 {
            -1
        } else {
            num_after(inner, "cx=\""@, ae)
        };
        let cy2 = if ae == -1 {
            -1
        } else {
            num_after(inner, "cy=\""@, ae)
        };
        if cx2 >= 0 && cy2 >= 0 {
            (cx2, cy2)
        } else {
            (default_emu(), default_emu())
        }
    }
}

/// The dimensions of an embedded object block, in EMU: the style's width
/// and height with their unit suffixes, then one square inch.
pub open spec fn object_dims(inner: Seq<char>) -> (int, int) {
    let w = styled_num_after(inner, "width:"@, 0);
    let h = styled_num_after(inner, "height:"@, 0);
    if w >= 0 && h >= 0 {
        (w, h)
    } else {
        (default_emu(), default_emu())
    }
}

/// The reserved-character entities, as concrete character sequences.
pub open spec fn ent_lt() -> Seq<char> {
    seq!['&', 'l', 't', ';']
}

pub open spec fn ent_gt() -> Seq<char> {
    seq!['&', 'g', 't', ';']
}

pub open spec fn ent_amp() -> Seq<char> {
    seq!['&', 'a', 'm', 'p', ';']
}

/// Markup entity decoding, left to right: the three reserved-character
/// entities become their characters.
pub open spec fn xml_unescape(s: Seq<char>) -> Seq<char>
    decreases s.len(),
{
    if s.len() == 0 {
        Seq::empty()
    } else if is_at(s, 0, ent_lt()) {
        seq!['<'] + xml_unescape(s.skip(4))
    } else if is_at(s, 0, ent_gt()) {
        seq!['>'] + xml_unescape(s.skip(4))
    } else if is_at(s, 0, ent_amp()) {
        seq!['&'] + xml_unescape(s.skip(5))
    } else {
        seq![s[0]] + xml_unescape(s.skip(1))
    }
}

/// Decode the three reserved-character entities.
pub fn unescape_chars(s: &Vec<char>) -> (r: Vec<char>)
    ensures
        r@ == xml_unescape(s@),
{
    let mut p_lt: Vec<char> = Vec::new();
    p_lt.push('&');
    p_lt.push('l');
    p_lt.push('t');
    p_lt.push(';');
    let mut p_gt: Vec<char> = Vec::new();
    p_gt.push('&');
    p_gt.push('g');
    p_gt.push('t');
    p_gt.push(';');
    let mut p_amp: Vec<char> = Vec::new();
    p_amp.push('&');
    p_amp.push('a');
    p_amp.push('m');
    p_amp.push('p');
    p_amp.push(';');
    proof {
        assert(p_lt@ =~= ent_lt());
        assert(p_gt@ =~= ent_gt());
        assert(p_amp@ =~= ent_amp());
    }
    let mut out: Vec<char> = Vec::new();
    let mut i: usize = 0;
    proof {
        assert(s@.skip(0) =~= s@);
    }
    while i < s.len()
        invariant
            i <= s@.len(),
            p_lt@ == ent_lt() && p_gt@ == ent_gt() && p_amp@ == ent_amp(),
            xml_unescape(s@) =~= out@ + xml_unescape(s@.skip(i as int)),
        decreases s@.len() - i,
    {
        let ghost rest = s@.skip(i as int);
        proof {
            assert(rest.len() == s@.len() - i);
            assert forall|k: int| 0 <= k < rest.len() implies rest[k] == s@[i + k] by {}
        }
        if match_at(s, &p_lt, i) {
            proof {
                assert(is_at(rest, 0, ent_lt())) by {
                    assert(rest.subrange(0, 4) =~= s@.subrange(i as int, i + 4));
                }
                assert(rest.skip(4) =~= s@.skip(i + 4));
            }
            out.push('<');
            i = i + 4;
        } else if match_at(s, &p_gt, i) {
            proof {
                assert(!is_at(rest, 0, ent_lt())) by {
                    if is_at(rest, 0, ent_lt()) {
                        assert(rest.subrange(0, 4) =~= s@.subrange(i as int, i + 4));
                    }
                }
                assert(is_at(rest, 0, ent_gt())) by {
                    assert(rest.subrange(0, 4) =~= s@.subrange(i as int, i + 4));
                }
                assert(rest.skip(4) =~= s@.skip(i + 4));
            }
            out.push('>');
            i = i + 4;
        } else if match_at(s, &p_amp, i) {
            proof {
                assert(!is_at(rest, 0, ent_lt())) by {
                    if is_at(rest, 0, ent_lt()) {
                        assert(rest.subrange(0, 4) =~= s@.subrange(i as int, i + 4));
                    }
                }
                assert(!is_at(rest, 0, ent_gt())) by {
                    if is_at(rest, 0, ent_gt()) {
                        assert(rest.subrange(0, 4) =~= s@.subrange(i as int, i + 4));
                    }
                }
                assert(is_at(rest, 0, ent_amp())) by {
                    assert(rest.subrange(0, 5) =~= s@.subrange(i as int, i + 5));
                }
                assert(rest.skip(5) =~= s@.skip(i + 5));
            }
            out.push('&');
            i = i + 5;
        } else {
            proof {
                assert(!is_at(rest, 0, ent_lt())) by {
                    if is_at(rest, 0, ent_lt()) {
                        assert(rest.subrange(0, 4) =~= s@.subrange(i as int, i + 4));
                    }
                }
                assert(!is_at(rest, 0, ent_gt())) by {
                    if is_at(rest, 0, ent_gt()) {
                        assert(rest.subrange(0, 4) =~= s@.subrange(i as int, i + 4));
                    }
                }
                assert(!is_at(rest, 0, ent_amp())) by {
                    if is_at(rest, 0, ent_amp()) {
                        assert(rest.subrange(0, 5) =~= s@.subrange(i as int, i + 5));
                    }
                }
                assert(rest[0] == s@[i as int]);
                assert(rest.skip(1) =~= s@.skip(i + 1));
            }
            out.push(s[i]);
            i = i + 1;
        }
    }
    proof {
        assert(s@.skip(s@.len() as int) =~= Seq::<char>::empty());
        assert(out@ =~= xml_unescape(s@));
    }
    out
}

/// Ten to the `n`.
pub open spec fn pow10(n: nat) -> nat
    decreases n,
{
    if n == 0 {
        1
    } else {
        10 * pow10((n - 1) as nat)
    }
}

/// A run of decimal digits is bounded by ten to its length.
pub proof fn lemma_digits_bound(s: Seq<char>)
    requires
        forall|i: int| 0 <= i < s.len() ==> is_digit_char(s[i]),
    ensures
        digits_to_nat(s) < pow10(s.len()),
    decreases s.len(),
{
    if s.len() > 0 {
        assert forall|i: int| 0 <= i < s.drop_last().len() implies is_digit_char(
            s.drop_last()[i],
        ) by {
            assert(s.drop_last()[i] == s[i]);
        }
        lemma_digits_bound(s.drop_last());
        assert(is_digit_char(s.last()));
        assert(s.last() as nat >= 48 && s.last() as nat <= 57);
    }
}

/// The end of the digit run starting at `from`, executably.
pub fn digit_run_end_of(s: &Vec<char>, from: usize) -> (r: usize)
    requires
        from <= s@.len(),
    ensures
        r as int == digit_run_end(s@, from as int),
        from <= r <= s@.len(),
{
    let mut i: usize = from;
    while i < s.len() && s[i] >= '0' && s[i] <= '9'
        invariant
            from <= i <= s@.len(),
            digit_run_end(s@, from as int) == digit_run_end(s@, i as int),
        decreases s@.len() - i,
    {
        proof {
            assert(digit_run_end(s@, i as int) == digit_run_end(s@, i + 1));
        }
        i = i + 1;
    }
    i
}

/// The value of the digit run `[vs, ve)`, which must be at most 12 digits.
fn digit_run_value(s: &Vec<char>, vs: usize, ve: usize) -> (r: u64)
    requires
        vs <= ve <= s@.len(),
        ve - vs <= 12,
        forall|i: int| vs <= i < ve ==> is_digit_char(s@[i]),
    ensures
        r as nat == digits_to_nat(s@.subrange(vs as int, ve as int)),
        r < 1000000000000,
{
    proof {
        let sub = s@.subrange(vs as int, ve as int);
        assert forall|i: int| 0 <= i < sub.len() implies is_digit_char(sub[i]) by {
            assert(sub[i] == s@[vs + i]);
        }
        lemma_digits_bound(sub);
        assert(pow10(sub.len()) <= pow10(12)) by {
            lemma_pow10_12();
            lemma_pow10_monotone(sub.len(), 12);
        }
    }
    let mut acc: u64 = 0;
    let mut i: usize = vs;
    while i < ve
        invariant
            vs <= i <= ve <= s@.len(),
            ve - vs <= 12,
            forall|k: int| vs <= k < ve ==> is_digit_char(s@[k]),
            acc as nat == digits_to_nat(s@.subrange(vs as int, i as int)),
            (acc as nat) < pow10((i - vs) as nat),
        decreases ve - i,
    {
        proof {
            let pre = s@.subrange(vs as int, i + 1);
            assert(pre.drop_last() =~= s@.subrange(vs as int, i as int));
            assert(pre.last() == s@[i as int]);
            assert(pow10(((i + 1) - vs) as nat) == 10 * pow10((i - vs) as nat));
            lemma_pow10_monotone(((i + 1) - vs) as nat, 12);
            lemma_pow10_12();
        }
        let d = (s[i] as u32 - 48) as u64;
        acc = acc * 10 + d;
        i = i + 1;
    }
    proof {
        lemma_pow10_monotone((ve - vs) as nat, 12);
        lemma_pow10_12();
    }
    acc
}

/// The concrete value of ten to the twelfth.
pub proof fn lemma_pow10_12()
    ensures
        pow10(12) == 1000000000000,
{
    reveal_with_fuel(pow10, 13);
}

/// Powers of ten grow with the exponent.
pub proof fn lemma_pow10_monotone(a: nat, b: nat)
    requires
        a <= b,
    ensures
        pow10(a) <= pow10(b),
    decreases b,
{
    if a < b {
        lemma_pow10_monotone(a, (b - 1) as nat);
        assert(pow10(b) == 10 * pow10((b - 1) as nat));
    }
}

/// The number right after the first occurrence of `key` at or after
/// `from`, executably.
fn num_after_of(s: &Vec<char>, key: &Vec<char>, from: usize) -> (r: Option<u64>)
    ensures
        match r {
            Some(v) => num_after(s@, key@, from as int) == v as int && v < 1000000000000,
            None => num_after(s@, key@, from as int) == -1,
        },
{
    let n = s.len();
    let p = match find_from(s, key, from) {
        Some(p) => p,
        None => {
            return None;
        },
    };
    proof {
        assert(p + key@.len() <= n);
    }
    let vs = p + key.len();
    proof {
        lemma_digit_run_end(s@, vs as int);
    }
    let ve = digit_run_end_of(s, vs);
    if ve == vs || ve - vs > 12 {
        return None;
    }
    Some(digit_run_value(s, vs, ve))
}

/// The EMU value for `v` units of the unit written at `at`.
fn emu_at(s: &Vec<char>, v: u64, at: usize) -> (r: u64)
    requires
        v < 1000000000000,
    ensures
        r as nat == emu_of(v as nat, unit_code_at(s@, at as int)),
{
    let p_pt = str_to_chars("pt");
    let p_in = str_to_chars("in");
    let p_cm = str_to_chars("cm");
    let p_mm = str_to_chars("mm");
    if match_at(s, &p_pt, at) {
        v * 12700
    } else if match_at(s, &p_in, at) {
        v * 914400
    } else if match_at(s, &p_cm, at) {
        v * 360000
    } else if match_at(s, &p_mm, at) {
        v * 36000
    } else {
        v * 9525
    }
}

/// As `num_after_of`, converting the trailing unit suffix to EMU.
fn styled_num_after_of(s: &Vec<char>, key: &Vec<char>, from: usize) -> (r: Option<u64>)
    ensures
        match r {
            Some(v) => styled_num_after(s@, key@, from as int) == v as int,
            None => styled_num_after(s@, key@, from as int) == -1,
        },
{
    let n = s.len();
    let p = match find_from(s, key, from) {
        Some(p) => p,
        None => {
            return None;
        },
    };
    proof {
        assert(p + key@.len() <= n);
    }
    let vs = p + key.len();
    proof {
        lemma_digit_run_end(s@, vs as int);
    }
    let ve = digit_run_end_of(s, vs);
    if ve == vs || ve - vs > 12 {
        return None;
    }
    let v = digit_run_value(s, vs, ve);
    Some(emu_at(s, v, ve))
}

/// The dimensions of a drawing block, executably.
fn drawing_dims_of(inner: &Vec<char>) -> (r: (u64, u64))
    ensures
        (r.0 as int, r.1 as int) == drawing_dims(inner@),
{
    let p_extent = str_to_chars("<wp:extent");
    let p_aext = str_to_chars("<a:ext");
    let p_cx = str_to_chars("cx=\"");
    let p_cy = str_to_chars("cy=\"");
    if let Some(we) = find_from(inner, &p_extent, 0) {
        if let Some(cx) = num_after_of(inner, &p_cx, we) {
            if let Some(cy) = num_after_of(inner, &p_cy, we) {
                return (cx, cy);
            }
        }
    }
    if let Some(ae) = find_from(inner, &p_aext, 0) {
        if let Some(cx) = num_after_of(inner, &p_cx, ae) {
            if let Some(cy) = num_after_of(inner, &p_cy, ae) {
                return (cx, cy);
            }
        }
    }
    (914400, 914400)
}

/// The dimensions of an embedded object block, executably.
fn object_dims_of(inner: &Vec<char>) -> (r: (u64, u64))
    ensures
        (r.0 as int, r.1 as int) == object_dims(inner@),
{
    let p_w = str_to_chars("width:");
    let p_h = str_to_chars("height:");
    if let Some(w) = styled_num_after_of(inner, &p_w, 0) {
        if let Some(h) = styled_num_after_of(inner, &p_h, 0) {
            return (w, h);
        }
    }
    (914400, 914400)
}

/// Copy the character range `[from, to)`.
pub fn subrange_chars(s: &Vec<char>, from: usize, to: usize) -> (r: Vec<char>)
    requires
        from <= to <= s@.len(),
    ensures
        r@ == s@.subrange(from as int, to as int),
{
    let mut r: Vec<char> = Vec::new();
    let mut i: usize = from;
    while i < to
        invariant
            from <= i <= to <= s@.len(),
            r@ =~= s@.subrange(from as int, i as int),
        decreases to - i,
    {
        r.push(s[i]);
        proof {
            assert(r@ =~= s@.subrange(from as int, i + 1));
        }
        i = i + 1;
    }
    proof {
        assert(r@ =~= s@.subrange(from as int, to as int));
    }
    r
}

/// Mapping a pushed segment list views the push.
pub proof fn lemma_segs_view_push(s: Seq<Segment>, x: Segment)
    ensures
        segs_view(s.push(x)) =~= segs_view(s).push(seg_view(x)),
{
    assert forall|i: int| 0 <= i < s.len() + 1 implies segs_view(s.push(x))[i] == segs_view(
        s,
    ).push(seg_view(x))[i] by {
        if i < s.len() {
            assert(s.push(x)[i] == s[i]);
        } else {
            assert(s.push(x)[i] == x);
        }
    }
}

/// Append the pending text, trimmed, as one text segment; all-space
/// pending text contributes nothing.
pub open spec fn flush_pending(pending: Seq<char>, praw: Seq<char>, acc: Seq<SegView>) -> Seq<
    SegView,
> {
    let t = spec_trim(pending);
    if t.len() == 0 {
        acc
    } else {
        acc.push(SegView::Text { text: t, raw: praw })
    }
}

/// The smaller of two find results, where -1 means not found.
pub open spec fn min_pos(a: int, b: int) -> int {
    if a == -1 {
        b
    } else if b == -1 {
        a
    } else if a <= b {
        a
    } else {
        b
    }
}

/// The segment extraction state machine over one paragraph block: scan for
/// the nearest of a text run, a math expression, an inline drawing or an
/// embedded object; accumulate text until a math or image segment flushes
/// it; correlate each image to the next unconsumed asset.  A math segment
/// keeps its markup verbatim, and also carries the raw markup of the
/// immediately preceding text runs when they contribute only whitespace.
/// Returns the extracted segments and the advanced asset cursor.  A
/// missing closing element stops the scan gracefully with what was
/// accumulated.
pub open spec fn spec_extract(
    block: Seq<char>,
    c: int,
    pending: Seq<char>,
    praw: Seq<char>,
    acc: Seq<SegView>,
    assets: Seq<Seq<char>>,
    acur: int,
) -> (Seq<SegView>, int)
    decreases block.len() + 1 - c,
    via spec_extract_decreases
{
    if c < 0 {
        (flush_pending(pending, praw, acc), acur)
    } else {
        let tpos = min_pos(spec_find(block, "<w:t "@, c), spec_find(block, "<w:t>"@, c));
        let mpos = spec_find(block, "<m:oMath"@, c);
        let dpos = spec_find(block, "<w:drawing"@, c);
        let opos = spec_find(block, "<w:object"@, c);
        if tpos == -1 && mpos == -1 && dpos == -1 && opos == -1 {
            (flush_pending(pending, praw, acc), acur)
        } else if tpos != -1 && (mpos == -1 || tpos <= mpos) && (dpos == -1 || tpos <= dpos) && (
        opos == -1 || tpos <= opos) {
            let gt = spec_find(block, ">"@, tpos);
            if gt == -1 {
                (flush_pending(pending, praw, acc), acur)
            } else {
                let cs = gt + 1;
                let ce = spec_find(block, "</w:t>"@, cs);
                if ce == -1 {
                    (flush_pending(pending, praw, acc), acur)
                } else {
                    let frag0 = xml_unescape(block.subrange(cs, ce));
                    let pp = spec_find(block, "xml:space=\"preserve\""@, tpos);
                    let frag = if frag0.len() == 0 && pp != -1 && pp + "xml:space=\"preserve\""@.len()
                        <= cs {
                        seq![' ']
                    } else {
                        frag0
                    };
                    let nc = ce + "</w:t>"@.len();
                    spec_extract(
                        block,
                        nc,
                        pending + frag,
                        praw + block.subrange(tpos, nc),
                        acc,
                        assets,
                        acur,
                    )
                }
            }
        } else if mpos != -1 && (dpos == -1 || mpos <= dpos) && (opos == -1 || mpos <= opos) {
            let me = spec_find(block, "</m:oMath>"@, mpos);
            if me == -1 {
                (flush_pending(pending, praw, acc), acur)
            } else {
                let ne = me + "</m:oMath>"@.len();
                let omml = block.subrange(mpos, ne);
                let mraw = if spec_trim(pending).len() == 0 {
                    praw + omml
                } else {
                    omml
                };
                let acc2 = flush_pending(pending, praw, acc).push(
                    SegView::Math { omml: omml, raw: mraw },
                );
                spec_extract(block, ne, Seq::empty(), Seq::empty(), acc2, assets, acur)
            }
        } else if dpos != -1 && (opos == -1 || dpos <= opos) {
            let de = spec_find(block, "</w:drawing>"@, dpos);
            if de == -1 {
                (flush_pending(pending, praw, acc), acur)
            } else {
                let ne = de + "</w:drawing>"@.len();
                let inner = block.subrange(dpos, ne);
                let dims = drawing_dims(inner);
                let path = if 0 <= acur < assets.len() {
                    assets[acur]
                } else {
                    Seq::empty()
                };
                let acur2 = if 0 <= acur < assets.len() {
                    acur + 1
                } else {
                    acur
                };
                let acc2 = flush_pending(pending, praw, acc).push(
                    SegView::Image { asset: path, raw: inner, w: dims.0 as u64, h: dims.1 as u64 },
                );
                spec_extract(block, ne, Seq::empty(), Seq::empty(), acc2, assets, acur2)
            }
        } else {
            let oe = spec_find(block, "</w:object>"@, opos);
            if oe == -1 {
                (flush_pending(pending, praw, acc), acur)
            } else {
                let ne = oe + "</w:object>"@.len();
                let inner = block.subrange(opos, ne);
                let dims = object_dims(inner);
                let path = if 0 <= acur < assets.len() {
                    assets[acur]
                } else {
                    Seq::empty()
                };
                let acur2 = if 0 <= acur < assets.len() {
                    acur + 1
                } else {
                    acur
                };
                let acc2 = flush_pending(pending, praw, acc).push(
                    SegView::Image { asset: path, raw: inner, w: dims.0 as u64, h: dims.1 as u64 },
                );
                spec_extract(block, ne, Seq::empty(), Seq::empty(), acc2, assets, acur2)
            }
        }
    }
}

#[via_fn]
proof fn spec_extract_decreases(
    block: Seq<char>,
    c: int,
    pending: Seq<char>,
    praw: Seq<char>,
    acc: Seq<SegView>,
    assets: Seq<Seq<char>>,
    acur: int,
) {
    if c >= 0 {
        lemma_spec_find(block, "<w:t "@, c);
        lemma_spec_find(block, "<w:t>"@, c);
        lemma_spec_find(block, "<m:oMath"@, c);
        lemma_spec_find(block, "<w:drawing"@, c);
        lemma_spec_find(block, "<w:object"@, c);
        let tpos = min_pos(spec_find(block, "<w:t "@, c), spec_find(block, "<w:t>"@, c));
        let mpos = spec_find(block, "<m:oMath"@, c);
        let dpos = spec_find(block, "<w:drawing"@, c);
        let opos = spec_find(block, "<w:object"@, c);
        if tpos != -1 {
            assert(c <= tpos);
            lemma_spec_find(block, ">"@, tpos);
            let gt = spec_find(block, ">"@, tpos);
            if gt >= 0 {
                lemma_spec_find(block, "</w:t>"@, gt + 1);
                let ce = spec_find(block, "</w:t>"@, gt + 1);
                if ce >= 0 {
                    assert(c < ce + "</w:t>"@.len() <= block.len());
                }
            }
        }
        if mpos != -1 {
            assert(c <= mpos);
            lemma_spec_find(block, "</m:oMath>"@, mpos);
            let me = spec_find(block, "</m:oMath>"@, mpos);
            if me >= 0 {
                assert(mpos < me + "</m:oMath>"@.len() <= block.len()) by {
                    assert(is_at(block, me, "</m:oMath>"@));
                    assert("</m:oMath>"@.len() > 0) by {
                        reveal_strlit("</m:oMath>");
                    }
                }
            }
        }
        if dpos != -1 {
            assert(c <= dpos);
            lemma_spec_find(block, "</w:drawing>"@, dpos);
            let de = spec_find(block, "</w:drawing>"@, dpos);
            if de >= 0 {
                assert(dpos < de + "</w:drawing>"@.len() <= block.len()) by {
                    assert(is_at(block, de, "</w:drawing>"@));
                    assert("</w:drawing>"@.len() > 0) by {
                        reveal_strlit("</w:drawing>");
                    }
                }
            }
        }
        if opos != -1 {
            assert(c <= opos);
            lemma_spec_find(block, "</w:object>"@, opos);
            let oe = spec_find(block, "</w:object>"@, opos);
            if oe >= 0 {
                assert(opos < oe + "</w:object>"@.len() <= block.len()) by {
                    assert(is_at(block, oe, "</w:object>"@));
                    assert("</w:object>"@.len() > 0) by {
                        reveal_strlit("</w:object>");
                    }
                }
            }
        }
    }
}

/// Flush accumulated text as one trimmed text segment; all-space text is
/// dropped.  Clears the accumulators.
fn flush_segments(segments: &mut Vec<Segment>, pending: &mut Vec<char>, praw: &mut Vec<char>)
    ensures
        segs_view(final(segments)@) == flush_pending(
            old(pending)@,
            old(praw)@,
            segs_view(old(segments)@),
        ),
        final(pending)@ == Seq::<char>::empty(),
        final(praw)@ == Seq::<char>::empty(),
{
    let t = trim_chars(pending);
    if t.len() > 0 {
        let txt = chars_to_string(&t);
        let raw = chars_to_string(praw);
        let ghost before = segments@;
        segments.push(Segment::Text { text: txt, raw_xml: raw });
        proof {
            lemma_segs_view_push(before, Segment::Text { text: txt, raw_xml: raw });
            assert(segs_view(segments@) =~= flush_pending(
                pending@,
                praw@,
                segs_view(before),
            ));
        }
    }
    *pending = Vec::new();
    *praw = Vec::new();
}

/// Whether `a` is no later than the position in `b`, a missing `b`
/// counting as later.
fn le_opt(a: usize, b: &Option<usize>) -> (r: bool)
    ensures
        r == match b {
            Option::Some(x) => a <= *x,
            Option::None => true,
        },
{
    match b {
        Some(x) => a <= *x,
        None => true,
    }
}

/// Extract the ordered segments of one paragraph block, correlating each
/// image or embedded object to the next unconsumed asset through the
/// shared cursor.
pub fn extract_segments_from_paragraph(
    block: &Vec<char>,
    assets: &Vec<ExtractedAsset>,
    next_asset_index: &mut usize,
) -> (r: Vec<Segment>)
    ensures
        ({
            let out = spec_extract(
                block@,
                0,
                Seq::empty(),
                Seq::empty(),
                Seq::empty(),
                asset_paths(assets@),
                *old(next_asset_index) as int,
            );
            segs_view(r@) == out.0 && *final(next_asset_index) as int == out.1
        }),
{
    let p_wtsp = str_to_chars("<w:t ");
    let p_wtgt = str_to_chars("<w:t>");
    let p_math = str_to_chars("<m:oMath");
    let p_draw = str_to_chars("<w:drawing");
    let p_obj = str_to_chars("<w:object");
    let p_gtc = str_to_chars(">");
    let p_endt = str_to_chars("</w:t>");
    let p_endm = str_to_chars("</m:oMath>");
    let p_endd = str_to_chars("</w:drawing>");
    let p_endo = str_to_chars("</w:object>");
    let p_pres = str_to_chars("xml:space=\"preserve\"");
    let ghost paths = asset_paths(assets@);
    let ghost a0 = *next_asset_index as int;
    let mut segments: Vec<Segment> = Vec::new();
    let mut pending: Vec<char> = Vec::new();
    let mut praw: Vec<char> = Vec::new();
    let mut c: usize = 0;
    let blen = block.len();
    proof {
        assert(segs_view(segments@) =~= Seq::<SegView>::empty());
    }
    loop
        invariant
            blen == block@.len(),
            c <= blen,
            p_wtsp@ == "<w:t "@ && p_wtgt@ == "<w:t>"@ && p_math@ == "<m:oMath"@ && p_draw@
                == "<w:drawing"@ && p_obj@ == "<w:object"@ && p_gtc@ == ">"@ && p_endt@
                == "</w:t>"@ && p_endm@ == "</m:oMath>"@ && p_endd@ == "</w:drawing>"@ && p_endo@
                == "</w:object>"@ && p_pres@ == "xml:space=\"preserve\""@,
            paths == asset_paths(assets@),
            spec_extract(block@, 0, Seq::empty(), Seq::empty(), Seq::empty(), paths, a0)
                == spec_extract(
                block@,
                c as int,
                pending@,
                praw@,
                segs_view(segments@),
                paths,
                *next_asset_index as int,
            ),
        ensures
            spec_extract(
                block@,
                c as int,
                pending@,
                praw@,
                segs_view(segments@),
                paths,
                *next_asset_index as int,
            ) == (
                flush_pending(pending@, praw@, segs_view(segments@)),
                *next_asset_index as int,
            ),
            spec_extract(block@, 0, Seq::empty(), Seq::empty(), Seq::empty(), paths, a0)
                == spec_extract(
                block@,
                c as int,
                pending@,
                praw@,
                segs_view(segments@),
                paths,
                *next_asset_index as int,
            ),
            paths == asset_paths(assets@),
        decreases block@.len() + 1 - c,
    {
        let nt1 = find_from(block, &p_wtsp, c);
        let nt2 = find_from(block, &p_wtgt, c);
        let next_text: Option<usize> = match (nt1, nt2) {
            (Some(a), Some(b)) => if a <= b {
                Some(a)
            } else {
                Some(b)
            },
            (Some(a), None) => Some(a),
            (None, Some(b)) => Some(b),
            (None, None) => None,
        };
        let nm = find_from(block, &p_math, c);
        let nd = find_from(block, &p_draw, c);
        let no = find_from(block, &p_obj, c);
        let ghost tpos = min_pos(
            spec_find(block@, "<w:t "@, c as int),
            spec_find(block@, "<w:t>"@, c as int),
        );
        let ghost mpos = spec_find(block@, "<m:oMath"@, c as int);
        let ghost dpos = spec_find(block@, "<w:drawing"@, c as int);
        let ghost opos = spec_find(block@, "<w:object"@, c as int);
        proof {
            assert(match next_text {
                Option::Some(t) => t as int == tpos,
                Option::None => tpos == -1,
            });
        }
        let text_sel = match next_text {
            Some(t) => le_opt(t, &nm) && le_opt(t, &nd) && le_opt(t, &no),
            None => false,
        };
        let math_sel = !text_sel && match nm {
            Some(m) => le_opt(m, &nd) && le_opt(m, &no),
            None => false,
        };
        let draw_sel = !text_sel && !math_sel && match nd {
            Some(d) => le_opt(d, &no),
            None => false,
        };
        if next_text.is_none() && nm.is_none() && nd.is_none() && no.is_none() {
            break;
        }
        if text_sel {
            let t = next_text.unwrap();
            let gt_opt = find_from(block, &p_gtc, t);
            if gt_opt.is_none() {
                break;
            }
            let gt = gt_opt.unwrap();
            proof {
                reveal_strlit(">");
                assert(gt + 1 <= blen);
            }
            let cs = gt + 1;
            let ce_opt = find_from(block, &p_endt, cs);
            if ce_opt.is_none() {
                break;
            }
            let ce = ce_opt.unwrap();
            let frag_raw = subrange_chars(block, cs, ce);
            let mut frag = unescape_chars(&frag_raw);
            let pres = match find_from(block, &p_pres, t) {
                Some(pp) => {
                    proof {
                        assert(pp + p_pres@.len() <= blen);
                    }
                    pp + p_pres.len() <= cs
                },
                None => false,
            };
            if frag.len() == 0 && pres {
                frag.push(' ');
                proof {
                    assert(frag@ =~= seq![' ']);
                }
            }
            proof {
                assert(ce + p_endt@.len() <= blen);
            }
            let nc = ce + p_endt.len();
            let mut rawpiece = subrange_chars(block, t, nc);
            let ghost pend_old = pending@;
            let ghost praw_old = praw@;
            pending.append(&mut frag);
            praw.append(&mut rawpiece);
            proof {
                assert(spec_extract(
                    block@,
                    c as int,
                    pend_old,
                    praw_old,
                    segs_view(segments@),
                    paths,
                    *next_asset_index as int,
                ) == spec_extract(
                    block@,
                    nc as int,
                    pending@,
                    praw@,
                    segs_view(segments@),
                    paths,
                    *next_asset_index as int,
                ));
            }
            proof {
                assert(c < nc);
            }
            c = nc;
        } else if math_sel {
            let m = nm.unwrap();
            let me_opt = find_from(block, &p_endm, m);
            if me_opt.is_none() {
                break;
            }
            let me = me_opt.unwrap();
            proof {
                reveal_strlit("</m:oMath>");
                assert(me + p_endm@.len() <= blen);
            }
            let ne = me + p_endm.len();
            let omml_v = subrange_chars(block, m, ne);
            let tcheck = trim_chars(&pending);
            let raw_v: Vec<char> = if tcheck.len() == 0 {
                let mut v = subrange_chars(&praw, 0, praw.len());
                let mut o = subrange_chars(&omml_v, 0, omml_v.len());
                proof {
                    assert(v@ =~= praw@);
                    assert(o@ =~= omml_v@);
                }
                v.append(&mut o);
                v
            } else {
                let o = subrange_chars(&omml_v, 0, omml_v.len());
                proof {
                    assert(o@ =~= omml_v@);
                }
                o
            };
            let ghost pend_old = pending@;
            let ghost praw_old = praw@;
            let ghost segs_old = segs_view(segments@);
            flush_segments(&mut segments, &mut pending, &mut praw);
            let om1 = chars_to_string(&omml_v);
            let om2 = chars_to_string(&raw_v);
            let seg = Segment::Math { omml: om1, raw_xml: om2 };
            let ghost before = segments@;
            segments.push(seg);
            proof {
                lemma_segs_view_push(before, seg);
                assert(spec_extract(
                    block@,
                    c as int,
                    pend_old,
                    praw_old,
                    segs_old,
                    paths,
                    *next_asset_index as int,
                ) == spec_extract(
                    block@,
                    ne as int,
                    Seq::empty(),
                    Seq::empty(),
                    segs_view(segments@),
                    paths,
                    *next_asset_index as int,
                ));
            }
            proof {
                assert(c < ne);
            }
            c = ne;
        } else if draw_sel {
            let d = nd.unwrap();
            let de_opt = find_from(block, &p_endd, d);
            if de_opt.is_none() {
                break;
            }
            let de = de_opt.unwrap();
            proof {
                reveal_strlit("</w:drawing>");
                assert(de + p_endd@.len() <= blen);
            }
            let ne = de + p_endd.len();
            let inner = subrange_chars(block, d, ne);
            let dims = drawing_dims_of(&inner);
            let ghost pend_old = pending@;
            let ghost praw_old = praw@;
            let ghost segs_old = segs_view(segments@);
            let ghost ai_old = *next_asset_index as int;
            flush_segments(&mut segments, &mut pending, &mut praw);
            let path: String = if *next_asset_index < assets.len() {
                let p = assets[*next_asset_index].absolute_path.clone();
                proof {
                    assert(paths[*next_asset_index as int]
                        == assets@[*next_asset_index as int].absolute_path@);
                }
                *next_asset_index = *next_asset_index + 1;
                p
            } else {
                String::new()
            };
            let raw = chars_to_string(&inner);
            let seg = Segment::Image {
                asset_path: path,
                raw_xml: raw,
                width_emu: dims.0,
                height_emu: dims.1,
            };
            let ghost before = segments@;
            segments.push(seg);
            proof {
                lemma_segs_view_push(before, seg);
                assert(paths.len() == assets@.len());
                assert(spec_extract(
                    block@,
                    c as int,
                    pend_old,
                    praw_old,
                    segs_old,
                    paths,
                    ai_old,
                ) == spec_extract(
                    block@,
                    ne as int,
                    Seq::empty(),
                    Seq::empty(),
                    segs_view(segments@),
                    paths,
                    *next_asset_index as int,
                ));
            }
            proof {
                assert(c < ne);
            }
            c = ne;
        } else {
            let o = no.unwrap();
            let oe_opt = find_from(block, &p_endo, o);
            if oe_opt.is_none() {
                break;
            }
            let oe = oe_opt.unwrap();
            proof {
                reveal_strlit("</w:object>");
                assert(oe + p_endo@.len() <= blen);
            }
            let ne = oe + p_endo.len();
            let inner = subrange_chars(block, o, ne);
            let dims = object_dims_of(&inner);
            let ghost pend_old = pending@;
            let ghost praw_old = praw@;
            let ghost segs_old = segs_view(segments@);
            let ghost ai_old = *next_asset_index as int;
            flush_segments(&mut segments, &mut pending, &mut praw);
            let path: String = if *next_asset_index < assets.len() {
                let p = assets[*next_asset_index].absolute_path.clone();
                proof {
                    assert(paths[*next_asset_index as int]
                        == assets@[*next_asset_index as int].absolute_path@);
                }
                *next_asset_index = *next_asset_index + 1;
                p
            } else {
                String::new()
            };
            let raw = chars_to_string(&inner);
            let seg = Segment::Image {
                asset_path: path,
                raw_xml: raw,
                width_emu: dims.0,
                height_emu: dims.1,
            };
            let ghost before = segments@;
            segments.push(seg);
            proof {
                lemma_segs_view_push(before, seg);
                assert(paths.len() == assets@.len());
                assert(spec_extract(
                    block@,
                    c as int,
                    pend_old,
                    praw_old,
                    segs_old,
                    paths,
                    ai_old,
                ) == spec_extract(
                    block@,
                    ne as int,
                    Seq::empty(),
                    Seq::empty(),
                    segs_view(segments@),
                    paths,
                    *next_asset_index as int,
                ));
            }
            proof {
                assert(c < ne);
            }
            c = ne;
        }
    }
    flush_segments(&mut segments, &mut pending, &mut praw);
    segments
}

/// The plain-text projection of segments: text verbatim, one placeholder
/// separator per math segment, and a separator before an image only when
/// needed to avoid fusing adjacent words.
pub open spec fn spec_plain(segs: Seq<SegView>) -> Seq<char>
    decreases segs.len(),
{
    if segs.len() == 0 {
        Seq::empty()
    } else {
        let acc = spec_plain(segs.drop_last());
        match segs.last() {
            SegView::Text { text, .. } => acc + text,
            SegView::Math { .. } => acc + seq![' '],
            SegView::Image { .. } => if acc.len() > 0 && acc.last() != ' ' {
                acc + seq![' ']
            } else {
                acc
            },
        }
    }
}

/// Projection length never shrinks as segments are appended.
pub proof fn lemma_spec_plain_prefix_len(segs: Seq<SegView>, i: int)
    requires
        0 <= i <= segs.len(),
    ensures
        spec_plain(segs.take(i)).len() <= spec_plain(segs).len(),
    decreases segs.len() - i,
{
    if i < segs.len() {
        lemma_spec_plain_prefix_len(segs, i + 1);
        assert(segs.take(i + 1).drop_last() =~= segs.take(i));
        assert(segs.take(i + 1).last() == segs[i]);
        assert(spec_plain(segs.take(i)).len() <= spec_plain(segs.take(i + 1)).len());
    } else {
        assert(segs.take(i) =~= segs);
    }
}

/// Convert segments to their plain-text projection.
pub fn segments_to_plain_text(segments: &Vec<Segment>) -> (r: Vec<char>)
    ensures
        r@ == spec_plain(segs_view(segments@)),
{
    let mut out: Vec<char> = Vec::new();
    let mut i: usize = 0;
    proof {
        assert(segs_view(segments@).take(0) =~= Seq::<SegView>::empty());
    }
    while i < segments.len()
        invariant
            i <= segments@.len(),
            out@ == spec_plain(segs_view(segments@).take(i as int)),
        decreases segments@.len() - i,
    {
        let ghost sv = segs_view(segments@);
        proof {
            assert(sv.take(i + 1).drop_last() =~= sv.take(i as int));
            assert(sv.take(i + 1).last() == sv[i as int]);
            assert(sv[i as int] == seg_view(segments@[i as int]));
        }
        match &segments[i] {
            Segment::Text { text, .. } => {
                let mut tc = str_to_chars(text.as_str());
                let ghost before = out@;
                out.append(&mut tc);
                proof {
                    assert(out@ == before + text@);
                }
            },
            Segment::Math { .. } => {
                out.push(' ');
                proof {
                    assert(out@ =~= spec_plain(sv.take(i as int)) + seq![' ']);
                }
            },
            Segment::Image { .. } => {
                let need = out.len() > 0 && *out.last().unwrap() != ' ';
                if need {
                    out.push(' ');
                    proof {
                        assert(out@ =~= spec_plain(sv.take(i as int)) + seq![' ']);
                    }
                }
            },
        }
        i = i + 1;
    }
    proof {
        assert(segs_view(segments@).take(segments@.len() as int) =~= segs_view(segments@));
    }
    out
}

/// The segments that cover the projection positions `[from, to)`: text
/// segments cut to the overlap, a math placeholder kept when its position
/// lies inside, and a zero-width image kept when its position lies inside.
pub open spec fn spec_window(segs: Seq<SegView>, i: int, from: int, to: int) -> Seq<SegView>
    decreases segs.len() - i,
{
    if i < 0 || i >= segs.len() {
        Seq::empty()
    } else {
        let pos = spec_plain(segs.take(i)).len() as int;
        let rest = spec_window(segs, i + 1, from, to);
        match segs[i] {
            SegView::Text { text, raw } => {
                let lo = if from > pos {
                    from
                } else {
                    pos
                };
                let hi = if to < pos + text.len() {
                    to
                } else {
                    pos + text.len()
                };
                if lo < hi {
                    seq![SegView::Text { text: text.subrange(lo - pos, hi - pos), raw: raw }]
                        + rest
                } else {
                    rest
                }
            },
            SegView::Math { omml, raw } => {
                if from <= pos < to {
                    seq![SegView::Math { omml: omml, raw: raw }] + rest
                } else {
                    rest
                }
            },
            SegView::Image { asset, raw, w, h } => {
                let acc = spec_plain(segs.take(i));
                let sep: int = if acc.len() > 0 && acc.last() != ' ' {
                    1
                } else {
                    0
                };
                if from <= pos + sep < to {
                    seq![SegView::Image { asset: asset, raw: raw, w: w, h: h }] + rest
                } else {
                    rest
                }
            },
        }
    }
}

/// Cut the segments to the projection window `[from, to)`.
pub fn segments_window(segs: &Vec<Segment>, from: usize, to: usize) -> (r: Vec<Segment>)
    requires
        spec_plain(segs_view(segs@)).len() <= usize::MAX,
    ensures
        segs_view(r@) == spec_window(segs_view(segs@), 0, from as int, to as int),
{
    let mut out: Vec<Segment> = Vec::new();
    let mut i: usize = 0;
    let mut pos: usize = 0;
    let mut last_ch: char = ' ';
    proof {
        assert(segs_view(segs@).take(0) =~= Seq::<SegView>::empty());
        assert(segs_view(out@) =~= Seq::<SegView>::empty());
    }
    while i < segs.len()
        invariant
            i <= segs@.len(),
            spec_plain(segs_view(segs@)).len() <= usize::MAX,
            pos == spec_plain(segs_view(segs@).take(i as int)).len(),
            pos > 0 ==> last_ch == spec_plain(segs_view(segs@).take(i as int)).last(),
            segs_view(out@) + spec_window(segs_view(segs@), i as int, from as int, to as int)
                =~= spec_window(segs_view(segs@), 0, from as int, to as int),
        decreases segs@.len() - i,
    {
        let ghost sv = segs_view(segs@);
        proof {
            assert(sv.take(i + 1).drop_last() =~= sv.take(i as int));
            assert(sv.take(i + 1).last() == sv[i as int]);
            assert(sv[i as int] == seg_view(segs@[i as int]));
            lemma_spec_plain_prefix_len(sv, i + 1);
        }
        let ghost win_i = spec_window(sv, i as int, from as int, to as int);
        let ghost win_n = spec_window(sv, i + 1, from as int, to as int);
        match &segs[i] {
            Segment::Text { text, raw_xml } => {
                let tlen = text.as_str().unicode_len();
                proof {
                    assert(spec_plain(sv.take(i + 1)).len() == pos + text@.len());
                }
                let lo = if from > pos {
                    from
                } else {
                    pos
                };
                let hi = if to < pos + tlen {
                    to
                } else {
                    pos + tlen
                };
                if lo < hi {
                    let cut = text.as_str().substring_char(lo - pos, hi - pos);
                    let seg = Segment::Text { text: cut.to_string(), raw_xml: raw_xml.clone() };
                    let ghost before = out@;
                    out.push(seg);
                    proof {
                        lemma_segs_view_push(before, seg);
                        assert(seg_view(seg) == SegView::Text {
                            text: text@.subrange(lo - pos, hi - pos),
                            raw: raw_xml@,
                        });
                        assert(win_i =~= seq![seg_view(seg)] + win_n);
                        assert(segs_view(out@) + win_n =~= spec_window(
                            sv,
                            0,
                            from as int,
                            to as int,
                        ));
                    }
                } else {
                    proof {
                        assert(win_i =~= win_n);
                    }
                }
                if tlen > 0 {
                    last_ch = text.as_str().get_char(tlen - 1);
                }
                pos = pos + tlen;
            },
            Segment::Math { omml, raw_xml } => {
                proof {
                    assert(spec_plain(sv.take(i + 1)).len() == pos + 1);
                }
                if from <= pos && pos < to {
                    let seg = Segment::Math { omml: omml.clone(), raw_xml: raw_xml.clone() };
                    let ghost before = out@;
                    out.push(seg);
                    proof {
                        lemma_segs_view_push(before, seg);
                        assert(win_i =~= seq![seg_view(seg)] + win_n);
                        assert(segs_view(out@) + win_n =~= spec_window(
                            sv,
                            0,
                            from as int,
                            to as int,
                        ));
                    }
                } else {
                    proof {
                        assert(win_i =~= win_n);
                    }
                }
                last_ch = ' ';
                pos = pos + 1;
            },
            Segment::Image { asset_path, raw_xml, width_emu, height_emu } => {
                let need = pos > 0 && last_ch != ' ';
                let sep: usize = if need {
                    1
                } else {
                    0
                };
                if need {
                    last_ch = ' ';
                }
                proof {
                    assert(spec_plain(sv.take(i + 1)).len() == pos + sep);
                }
                if from <= pos + sep && pos + sep < to {
                    let seg = Segment::Image {
                        asset_path: asset_path.clone(),
                        raw_xml: raw_xml.clone(),
                        width_emu: *width_emu,
                        height_emu: *height_emu,
                    };
                    let ghost before = out@;
                    out.push(seg);
                    proof {
                        lemma_segs_view_push(before, seg);
                        assert(win_i =~= seq![seg_view(seg)] + win_n);
                        assert(segs_view(out@) + win_n =~= spec_window(
                            sv,
                            0,
                            from as int,
                            to as int,
                        ));
                    }
                } else {
                    proof {
                        assert(win_i =~= win_n);
                    }
                }
                pos = pos + sep;
            },
        }
        i = i + 1;
    }
    proof {
        assert(spec_window(segs_view(segs@), segs@.len() as int, from as int, to as int)
            =~= Seq::<SegView>::empty());
        assert(segs_view(out@) =~= spec_window(segs_view(segs@), 0, from as int, to as int));
    }
    out
}

/// Spec-level image of one option.
#[verifier::ext_equal]
pub struct OptView {
    pub label: Seq<char>,
    pub locked: bool,
    pub content: Seq<SegView>,
}

/// Spec-level image of one question.
#[verifier::ext_equal]
pub struct QView {
    pub number: u32,
    pub stem: Seq<SegView>,
    pub options: Seq<OptView>,
    pub correct: Seq<char>,
}

/// The spec-level image of an executable option.
pub open spec fn opt_view(o: OptionItem) -> OptView {
    OptView { label: o.label@, locked: o.locked, content: segs_view(o.content@) }
}

/// The spec-level image of an option list.
pub open spec fn opts_view(s: Seq<OptionItem>) -> Seq<OptView> {
    s.map_values(|o: OptionItem| opt_view(o))
}

/// The spec-level image of an executable question.
pub open spec fn q_view(q: Question) -> QView {
    QView {
        number: q.number,
        stem: segs_view(q.stem@),
        options: opts_view(q.options@),
        correct: q.correct_label@,
    }
}

/// The spec-level image of a question list.
pub open spec fn qs_view(qs: Seq<Question>) -> Seq<QView> {
    qs.map_values(|q: Question| q_view(q))
}

/// Drop leading whitespace from the first text segment; a first text
/// segment that becomes empty is dropped.
pub open spec fn trim_first_text(segs: Seq<SegView>) -> Seq<SegView> {
    if segs.len() == 0 {
        segs
    } else {
        match segs[0] {
            SegView::Text { text, raw } => {
                let b = first_non_space(text, 0);
                let t = text.subrange(b, text.len() as int);
                if t.len() == 0 {
                    segs.drop_first()
                } else {
                    segs.update(0, SegView::Text { text: t, raw: raw })
                }
            },
            _ => segs,
        }
    }
}

/// Drop trailing whitespace from the last text segment; a last text
/// segment that becomes empty is dropped.
pub open spec fn trim_last_text(segs: Seq<SegView>) -> Seq<SegView> {
    if segs.len() == 0 {
        segs
    } else {
        match segs.last() {
            SegView::Text { text, raw } => {
                let e = last_non_space_end(text);
                let t = text.subrange(0, e);
                if t.len() == 0 {
                    segs.drop_last()
                } else {
                    segs.update(segs.len() - 1, SegView::Text { text: t, raw: raw })
                }
            },
            _ => segs,
        }
    }
}

/// Executable counterpart of `trim_last_text`.
pub fn trim_last_text_segments(segs: Vec<Segment>) -> (r: Vec<Segment>)
    ensures
        segs_view(r@) == trim_last_text(segs_view(segs@)),
{
    if segs.len() == 0 {
        return segs;
    }
    let mut segs = segs;
    let ghost orig = segs@;
    let last = segs.pop().unwrap();
    match last {
        Segment::Text { text, raw_xml } => {
            let tc = str_to_chars(text.as_str());
            proof {
                lemma_last_non_space_end(tc@);
            }
            let mut e: usize = tc.len();
            proof {
                assert(tc@.subrange(0, tc@.len() as int) =~= tc@);
            }
            while e > 0 && is_space(tc[e - 1])
                invariant
                    e <= tc@.len(),
                    last_non_space_end(tc@) == last_non_space_end(tc@.subrange(0, e as int)),
                    last_non_space_end(tc@) <= e,
                decreases e,
            {
                proof {
                    let pre = tc@.subrange(0, e as int);
                    assert(pre.drop_last() =~= tc@.subrange(0, e - 1));
                    assert(pre.last() == tc@[e - 1]);
                    lemma_last_non_space_end(tc@.subrange(0, e - 1));
                }
                e = e - 1;
            }
            proof {
                let pre = tc@.subrange(0, e as int);
                if e > 0 {
                    assert(pre.last() == tc@[e - 1]);
                }
                assert(last_non_space_end(tc@) == e);
            }
            if e == 0 {
                proof {
                    assert(segs_view(segs@) =~= trim_last_text(segs_view(orig)));
                }
                segs
            } else {
                let cut = subrange_chars(&tc, 0, e);
                let nt = chars_to_string(&cut);
                let seg = Segment::Text { text: nt, raw_xml };
                let ghost before = segs@;
                segs.push(seg);
                proof {
                    lemma_segs_view_push(before, seg);
                    assert(segs_view(segs@) =~= trim_last_text(segs_view(orig)));
                }
                segs
            }
        },
        other => {
            let ghost before = segs@;
            segs.push(other);
            proof {
                lemma_segs_view_push(before, other);
                assert(segs@ =~= orig);
                assert(segs_view(segs@) =~= trim_last_text(segs_view(orig)));
            }
            segs
        },
    }
}

/// Executable counterpart of `trim_first_text`.
pub fn trim_first_text_segments(segs: Vec<Segment>) -> (r: Vec<Segment>)
    ensures
        segs_view(r@) == trim_first_text(segs_view(segs@)),
{
    if segs.len() == 0 {
        return segs;
    }
    let is_text = match &segs[0] {
        Segment::Text { .. } => true,
        _ => false,
    };
    if !is_text {
        return segs;
    }
    let mut segs = segs;
    let first = segs.remove(0);
    let ghost rest = segs@;
    match first {
        Segment::Text { text, raw_xml } => {
            let tc = str_to_chars(text.as_str());
            let b = skip_spaces(&tc, 0);
            proof {
                lemma_first_non_space(tc@, 0);
            }
            if b == tc.len() {
                proof {
                    assert(segs_view(segs@) =~= trim_first_text(
                        segs_view(seq![Segment::Text { text: text, raw_xml: raw_xml }] + rest),
                    ));
                    assert(segs_view(seq![Segment::Text { text: text, raw_xml: raw_xml }] + rest)
                        =~= segs_view(seq![Segment::Text { text: text, raw_xml: raw_xml }])
                        + segs_view(rest));
                }
                segs
            } else {
                let cut = subrange_chars(&tc, b, tc.len());
                let nt = chars_to_string(&cut);
                let seg = Segment::Text { text: nt, raw_xml: raw_xml };
                segs.insert(0, seg);
                segs
            }
        },
        _ => {
            segs.insert(0, first);
            segs
        },
    }
}

/// Where the question prefix ends in the trimmed projection: the keyword,
/// at least one whitespace character, at least one digit, then a dot; -1
/// when the text does not open a question.
pub open spec fn q_prefix_end(t: Seq<char>) -> int {
    let kwlen: int = if is_at(t, 0, "Câu"@) {
        "Câu"@.len() as int
    } else if is_at(t, 0, "Question"@) {
        "Question"@.len() as int
    } else {
        -1
    };
    if kwlen == -1 {
        -1
    } else {
        let ws = first_non_space(t, kwlen);
        if ws == kwlen {
            -1
        } else {
            let de = digit_run_end(t, ws);
            if de == ws {
                -1
            } else if de < t.len() && t[de] == '.' {
                de + 1
            } else {
                -1
            }
        }
    }
}

/// The question number written in the prefix; a value beyond the 32-bit
/// range reads as zero.
pub open spec fn q_number_of(t: Seq<char>) -> u32 {
    let kwlen: int = if is_at(t, 0, "Câu"@) {
        "Câu"@.len() as int
    } else {
        "Question"@.len() as int
    };
    let ws = first_non_space(t, kwlen);
    let de = digit_run_end(t, ws);
    let v = digits_to_nat(t.subrange(ws, de));
    if v > 0xFFFF_FFFF {
        0
    } else {
        v as u32
    }
}

/// Parse the digit run `[vs, ve)` as a question number, reading overflow
/// as zero.
fn digits_to_u32_or_zero(t: &Vec<char>, vs: usize, ve: usize) -> (r: u32)
    requires
        vs <= ve <= t@.len(),
        forall|i: int| vs <= i < ve ==> is_digit_char(t@[i]),
    ensures
        ({
            let v = digits_to_nat(t@.subrange(vs as int, ve as int));
            if v > 0xFFFF_FFFF {
                r == 0
            } else {
                r == v
            }
        }),
{
    let mut acc: u64 = 0;
    let mut over: bool = false;
    let mut i: usize = vs;
    while i < ve
        invariant
            vs <= i <= ve <= t@.len(),
            forall|k: int| vs <= k < ve ==> is_digit_char(t@[k]),
            !over ==> acc as nat == digits_to_nat(t@.subrange(vs as int, i as int)) && acc
                <= 0xFFFF_FFFF,
            over ==> digits_to_nat(t@.subrange(vs as int, i as int)) > 0xFFFF_FFFF,
        decreases ve - i,
    {
        proof {
            let pre = t@.subrange(vs as int, i + 1);
            assert(pre.drop_last() =~= t@.subrange(vs as int, i as int));
            assert(pre.last() == t@[i as int]);
        }
        let d = (t[i] as u32 - 48) as u64;
        if !over {
            let nv = acc * 10 + d;
            if nv > 0xFFFF_FFFF {
                over = true;
            } else {
                acc = nv;
            }
        }
        i = i + 1;
    }
    if over {
        0
    } else {
        acc as u32
    }
}

/// Match the question prefix against the trimmed projection, returning the
/// question number and the prefix length in codepoints.
pub fn question_match(t: &Vec<char>) -> (r: Option<(u32, usize)>)
    ensures
        match r {
            Some(p) => q_prefix_end(t@) == p.1 as int && p.0 == q_number_of(t@) && p.1
                <= t@.len(),
            None => q_prefix_end(t@) == -1,
        },
{
    let p_cau = str_to_chars("Câu");
    let p_q = str_to_chars("Question");
    let kwlen: usize = if match_at(t, &p_cau, 0) {
        p_cau.len()
    } else if match_at(t, &p_q, 0) {
        p_q.len()
    } else {
        return None;
    };
    let ws = skip_spaces(t, kwlen);
    if ws == kwlen {
        return None;
    }
    proof {
        lemma_digit_run_end(t@, ws as int);
    }
    let de = digit_run_end_of(t, ws);
    if de == ws {
        return None;
    }
    if de < t.len() && t[de] == '.' {
        let num = digits_to_u32_or_zero(t, ws, de);
        Some((num, de + 1))
    } else {
        None
    }
}

/// The length of an option-label head at `b` (an optional lock marker, a
/// letter A-F, a dot), or -1 when none starts there.
pub open spec fn label_head_len(t: Seq<char>, b: int) -> int {
    if b < 0 || b >= t.len() {
        -1
    } else if t[b] == '#' {
        if b + 2 < t.len() && 'A' <= t[b + 1] && t[b + 1] <= 'F' && t[b + 2] == '.' {
            3
        } else {
            -1
        }
    } else if b + 1 < t.len() && 'A' <= t[b] && t[b] <= 'F' && t[b + 1] == '.' {
        2
    } else {
        -1
    }
}

/// An option label starts at `b`: a label head preceded by nothing or by
/// whitespace.
pub open spec fn label_at(t: Seq<char>, b: int) -> bool {
    label_head_len(t, b) != -1 && (b == 0 || is_space_char(t[b - 1]))
}

/// The letter of the label at `b`.
pub open spec fn label_char_at(t: Seq<char>, b: int) -> char {
    if t[b] == '#' {
        t[b + 1]
    } else {
        t[b]
    }
}

/// Whether the label at `b` carries the legacy lock marker.
pub open spec fn label_locked_at(t: Seq<char>, b: int) -> bool {
    t[b] == '#'
}

/// Executable label-head match.
pub fn label_head_len_of(t: &Vec<char>, b: usize) -> (r: Option<usize>)
    ensures
        match r {
            Some(l) => label_head_len(t@, b as int) == l as int && (l == 2 || l == 3),
            None => label_head_len(t@, b as int) == -1,
        },
{
    let n = t.len();
    if b >= n {
        return None;
    }
    if t[b] == '#' {
        if n - b > 2 && 'A' <= t[b + 1] && t[b + 1] <= 'F' && t[b + 2] == '.' {
            Some(3)
        } else {
            None
        }
    } else if n - b > 1 && 'A' <= t[b] && t[b] <= 'F' && t[b + 1] == '.' {
        Some(2)
    } else {
        None
    }
}

/// The first option-label boundary at or after `from`, or -1.
pub open spec fn next_label_boundary(t: Seq<char>, from: int) -> int
    decreases t.len() + 1 - from,
{
    if from < 0 || from >= t.len() {
        -1
    } else if label_at(t, from) {
        from
    } else {
        next_label_boundary(t, from + 1)
    }
}

/// Bounds of `next_label_boundary`.
pub proof fn lemma_next_label_boundary(t: Seq<char>, from: int)
    requires
        0 <= from,
    ensures
        next_label_boundary(t, from) == -1 || from <= next_label_boundary(t, from) < t.len(),
        next_label_boundary(t, from) >= 0 ==> label_at(t, next_label_boundary(t, from)),
    decreases t.len() + 1 - from,
{
    if from < t.len() && !label_at(t, from) {
        lemma_next_label_boundary(t, from + 1);
    }
}

/// Executable boundary scan.
pub fn next_label_boundary_of(t: &Vec<char>, from: usize) -> (r: Option<usize>)
    ensures
        match r {
            Some(b) => next_label_boundary(t@, from as int) == b as int && from <= b < t@.len(),
            None => next_label_boundary(t@, from as int) == -1,
        },
{
    let mut i: usize = from;
    while i < t.len()
        invariant
            from <= i,
            next_label_boundary(t@, from as int) == next_label_boundary(t@, i as int),
        decreases t@.len() - i,
    {
        let hl = label_head_len_of(t, i);
        let pre_ok = i == 0 || is_space(t[i - 1]);
        if hl.is_some() && pre_ok {
            proof {
                assert(label_at(t@, i as int));
            }
            return Some(i);
        }
        proof {
            assert(!label_at(t@, i as int));
            assert(next_label_boundary(t@, i as int) == next_label_boundary(t@, i + 1));
        }
        i = i + 1;
    }
    proof {
        assert(next_label_boundary(t@, i as int) == -1);
    }
    None
}

/// The window end that stands for "to the end of the projection,
/// trailing zero-width segments included".
pub open spec fn tail_to(plen: int) -> int {
    if plen == usize::MAX {
        plen
    } else {
        plen + 1
    }
}

/// Mapping a pushed option list views the push.
pub proof fn lemma_opts_view_push(s: Seq<OptionItem>, x: OptionItem)
    ensures
        opts_view(s.push(x)) =~= opts_view(s).push(opt_view(x)),
{
    assert forall|i: int|
        0 <= i < s.len() + 1 implies opts_view(s.push(x))[i]
        == opts_view(s).push(opt_view(x))[i] by {
        if i < s.len() {
            assert(s.push(x)[i] == s[i]);
        } else {
            assert(s.push(x)[i] == x);
        }
    }
}

/// Mapping a pushed question list views the push.
pub proof fn lemma_qs_view_push(s: Seq<Question>, x: Question)
    ensures
        qs_view(s.push(x)) =~= qs_view(s).push(q_view(x)),
{
    assert forall|i: int| 0 <= i < s.len() + 1 implies qs_view(s.push(x))[i] == qs_view(s).push(
        q_view(x),
    )[i] by {
        if i < s.len() {
            assert(s.push(x)[i] == s[i]);
        } else {
            assert(s.push(x)[i] == x);
        }
    }
}

/// The options carried by one option paragraph: one option per label
/// boundary, its content the projection window from the end of its label
/// head to the next boundary (or the paragraph end).
pub open spec fn split_opts(
    segs: Seq<SegView>,
    base: int,
    plen_total: int,
    t: Seq<char>,
    b: int,
) -> Seq<OptView>
    decreases t.len() + 1 - b,
    via split_opts_decreases
{
    let hl = label_head_len(t, b);
    if b < 0 || hl == -1 {
        Seq::empty()
    } else {
        let nb = next_label_boundary(t, b + hl);
        let to = if nb == -1 {
            tail_to(plen_total)
        } else {
            base + nb
        };
        let content = trim_last_text(trim_first_text(spec_window(segs, 0, base + b + hl, to)));
        let opt = OptView {
            label: seq![label_char_at(t, b)],
            locked: label_locked_at(t, b),
            content: content,
        };
        if nb == -1 {
            seq![opt]
        } else {
            seq![opt] + split_opts(segs, base, plen_total, t, nb)
        }
    }
}

#[via_fn]
proof fn split_opts_decreases(segs: Seq<SegView>, base: int, plen_total: int, t: Seq<char>, b: int) {
    let hl = label_head_len(t, b);
    if b >= 0 && hl != -1 {
        lemma_next_label_boundary(t, b + hl);
    }
}

/// Split one option paragraph at its label boundaries.
fn split_option_paragraph(
    segs: &Vec<Segment>,
    plain_len: usize,
    base: usize,
    t: &Vec<char>,
) -> (r: Vec<OptionItem>)
    requires
        spec_plain(segs_view(segs@)).len() == plain_len,
        base + t@.len() == plain_len,
        label_head_len(t@, 0) != -1,
    ensures
        opts_view(r@) == split_opts(
            segs_view(segs@),
            base as int,
            plain_len as int,
            t@,
            0,
        ),
{
    let ghost sv = segs_view(segs@);
    let mut out: Vec<OptionItem> = Vec::new();
    let mut b: usize = 0;
    proof {
        assert(opts_view(out@) =~= Seq::<OptView>::empty());
    }
    loop
        invariant
            spec_plain(sv).len() == plain_len,
            sv == segs_view(segs@),
            base + t@.len() == plain_len,
            b < t@.len(),
            label_head_len(t@, b as int) != -1,
            opts_view(out@) + split_opts(
                sv,
                base as int,
                plain_len as int,
                t@,
                b as int,
            ) =~= split_opts(sv, base as int, plain_len as int, t@, 0),
        decreases t@.len() - b,
    {
        let hl = label_head_len_of(t, b).unwrap();
        let lc = if t[b] == '#' {
            t[b + 1]
        } else {
            t[b]
        };
        let locked = t[b] == '#';
        proof {
            if hl == 3 {
                assert(b + 2 < t@.len());
            } else {
                assert(b + 1 < t@.len());
            }
        }
        let nb_opt = next_label_boundary_of(t, b + hl);
        let from_abs = base + b + hl;
        let to_abs: usize = match nb_opt {
            Some(nb) => base + nb,
            None => if plain_len == usize::MAX {
                plain_len
            } else {
                plain_len + 1
            },
        };
        let w = segments_window(segs, from_abs, to_abs);
        let content = trim_last_text_segments(trim_first_text_segments(w));
        let mut lv: Vec<char> = Vec::new();
        lv.push(lc);
        let label = chars_to_string(&lv);
        let item = OptionItem { label, locked, content };
        let ghost before = out@;
        out.push(item);
        proof {
            lemma_opts_view_push(before, item);
            assert(lv@ =~= seq![label_char_at(t@, b as int)]);
            assert(opt_view(item) == split_opts(sv, base as int, plain_len as int, t@, b as int)[0]);
            assert(opts_view(out@) + split_opts(
                sv,
                base as int,
                plain_len as int,
                t@,
                match nb_opt {
                    Option::Some(nb) => nb as int,
                    Option::None => t@.len() as int,
                },
            ) =~= split_opts(sv, base as int, plain_len as int, t@, 0)) by {
                match nb_opt {
                    Option::Some(nb) => {
                        assert(split_opts(sv, base as int, plain_len as int, t@, b as int)
                            =~= seq![opt_view(item)] + split_opts(
                            sv,
                            base as int,
                            plain_len as int,
                            t@,
                            nb as int,
                        ));
                    },
                    Option::None => {
                        assert(split_opts(sv, base as int, plain_len as int, t@, b as int)
                            =~= seq![opt_view(item)]);
                        assert(split_opts(sv, base as int, plain_len as int, t@, t@.len() as int)
                            =~= Seq::<OptView>::empty());
                    },
                }
            }
        }
        match nb_opt {
            Some(nb) => {
                proof {
                    lemma_next_label_boundary(t@, (b + hl) as int);
                    assert(label_at(t@, nb as int));
                }
                b = nb;
            },
            None => {
                proof {
                    assert(split_opts(sv, base as int, plain_len as int, t@, t@.len() as int)
                        =~= Seq::<OptView>::empty());
                }
                return out;
            },
        }
    }
}

/// The spec-level image of the current question, if one is open.
pub open spec fn optq_view(c: Option<Question>) -> Option<QView> {
    match c {
        Option::None => Option::None,
        Option::Some(q) => Option::Some(q_view(q)),
    }
}

/// Close the current question: it is kept only when it has at least one
/// option.
pub open spec fn finalize_q(acc: Seq<QView>, cur: Option<QView>) -> Seq<QView> {
    match cur {
        Option::None => acc,
        Option::Some(q) => if q.options.len() > 0 {
            acc.push(q)
        } else {
            acc
        },
    }
}

/// The paragraph-by-paragraph parse: each paragraph block is extracted to
/// segments, projected to plain text, and classified as a new question, an
/// option paragraph, or a continuation appended to the open stem or the
/// last option.
pub open spec fn parse_rec(
    doc: Seq<char>,
    c: int,
    cur: Option<QView>,
    acc: Seq<QView>,
    assets: Seq<Seq<char>>,
    acur: int,
) -> Seq<QView>
    decreases doc.len() + 1 - c,
    via parse_rec_decreases
{
    if c < 0 {
        finalize_q(acc, cur)
    } else {
        let ps = spec_find(doc, "<w:p"@, c);
        if ps == -1 {
            finalize_q(acc, cur)
        } else {
            let pe = spec_find(doc, "</w:p>"@, ps);
            if pe == -1 {
                finalize_q(acc, cur)
            } else {
                let end = pe + "</w:p>"@.len();
                let block = doc.subrange(ps, end);
                let ex = spec_extract(
                    block,
                    0,
                    Seq::empty(),
                    Seq::empty(),
                    Seq::empty(),
                    assets,
                    acur,
                );
                if ex.0.len() == 0 {
                    parse_rec(doc, end, cur, acc, assets, ex.1)
                } else {
                    let plain = spec_plain(ex.0);
                    let b = first_non_space(plain, 0);
                    let t = plain.subrange(b, plain.len() as int);
                    if q_prefix_end(t) >= 0 {
                        let stem = trim_first_text(
                            spec_window(ex.0, 0, b + q_prefix_end(t), tail_to(plain.len() as int)),
                        );
                        let nq = QView {
                            number: q_number_of(t),
                            stem: stem,
                            options: Seq::empty(),
                            correct: Seq::empty(),
                        };
                        parse_rec(doc, end, Option::Some(nq), finalize_q(acc, cur), assets, ex.1)
                    } else {
                        match cur {
                            Option::None => parse_rec(doc, end, Option::None, acc, assets, ex.1),
                            Option::Some(q0) => {
                                if label_head_len(t, 0) != -1 {
                                    let nopts = split_opts(ex.0, b, plain.len() as int, t, 0);
                                    let q1 = QView {
                                        number: q0.number,
                                        stem: q0.stem,
                                        options: q0.options + nopts,
                                        correct: q0.correct,
                                    };
                                    parse_rec(doc, end, Option::Some(q1), acc, assets, ex.1)
                                } else if q0.options.len() == 0 {
                                    let q1 = QView {
                                        number: q0.number,
                                        stem: q0.stem + ex.0,
                                        options: q0.options,
                                        correct: q0.correct,
                                    };
                                    parse_rec(doc, end, Option::Some(q1), acc, assets, ex.1)
                                } else {
                                    let li = q0.options.len() - 1;
                                    let last0 = q0.options[li];
                                    let last1 = OptView {
                                        label: last0.label,
                                        locked: last0.locked,
                                        content: last0.content + ex.0,
                                    };
                                    let q1 = QView {
                                        number: q0.number,
                                        stem: q0.stem,
                                        options: q0.options.update(li, last1),
                                        correct: q0.correct,
                                    };
                                    parse_rec(doc, end, Option::Some(q1), acc, assets, ex.1)
                                }
                            },
                        }
                    }
                }
            }
        }
    }
}

#[via_fn]
proof fn parse_rec_decreases(
    doc: Seq<char>,
    c: int,
    cur: Option<QView>,
    acc: Seq<QView>,
    assets: Seq<Seq<char>>,
    acur: int,
) {
    if c >= 0 {
        lemma_spec_find(doc, "<w:p"@, c);
        let ps = spec_find(doc, "<w:p"@, c);
        if ps >= 0 {
            lemma_spec_find(doc, "</w:p>"@, ps);
            let pe = spec_find(doc, "</w:p>"@, ps);
            if pe >= 0 {
                assert(c < pe + "</w:p>"@.len() <= doc.len()) by {
                    assert(is_at(doc, pe, "</w:p>"@));
                    assert("</w:p>"@.len() > 0) by {
                        reveal_strlit("</w:p>");
                    }
                }
            }
        }
    }
}

/// The whole parse of one document against one asset list.
pub open spec fn spec_parse_doc(doc: Seq<char>, assets: Seq<Seq<char>>) -> Seq<QView> {
    parse_rec(doc, 0, Option::None, Seq::empty(), assets, 0)
}

/// Remove a classification prefix of `prefix_len` codepoints of the
/// plain-text projection from the segments, trimming leading whitespace
/// left in the first text segment.
pub fn trim_prefix_from_segments(segments: &Vec<Segment>, prefix_len: usize) -> (r: Vec<Segment>)
    ensures
        segs_view(r@) == trim_first_text(
            spec_window(
                segs_view(segments@),
                0,
                prefix_len as int,
                tail_to(spec_plain(segs_view(segments@)).len() as int),
            ),
        ),
{
    let plain = segments_to_plain_text(segments);
    let cap: usize = if plain.len() == usize::MAX {
        plain.len()
    } else {
        plain.len() + 1
    };
    let w = segments_window(segments, prefix_len, cap);
    trim_first_text_segments(w)
}

/// Parse the document markup into the structured question model,
/// correlating images to the assets by order of appearance through one
/// cursor shared across the whole document.
pub fn parse_document_xml_to_parsed_doc(
    document_xml: &Vec<char>,
    assets: &Vec<ExtractedAsset>,
) -> (r: ParsedDoc)
    ensures
        qs_view(r.questions@) == spec_parse_doc(document_xml@, asset_paths(assets@)),
{
    let p_wp = str_to_chars("<w:p");
    let p_endp = str_to_chars("</w:p>");
    let ghost paths = asset_paths(assets@);
    let mut questions: Vec<Question> = Vec::new();
    let mut cur: Option<Question> = None;
    let mut nai: usize = 0;
    let mut c: usize = 0;
    let dlen = document_xml.len();
    proof {
        assert(qs_view(questions@) =~= Seq::<QView>::empty());
    }
    loop
        invariant
            p_wp@ == "<w:p"@,
            p_endp@ == "</w:p>"@,
            paths == asset_paths(assets@),
            dlen == document_xml@.len(),
            c <= dlen,
            spec_parse_doc(document_xml@, paths) == parse_rec(
                document_xml@,
                c as int,
                optq_view(cur),
                qs_view(questions@),
                paths,
                nai as int,
            ),
        ensures
            parse_rec(
                document_xml@,
                c as int,
                optq_view(cur),
                qs_view(questions@),
                paths,
                nai as int,
            ) == finalize_q(qs_view(questions@), optq_view(cur)),
            spec_parse_doc(document_xml@, paths) == parse_rec(
                document_xml@,
                c as int,
                optq_view(cur),
                qs_view(questions@),
                paths,
                nai as int,
            ),
        decreases dlen + 1 - c,
    {
        let ghost c0g = c as int;
        let ghost cur0 = optq_view(cur);
        let ghost acc0 = qs_view(questions@);
        let ps = match find_from(document_xml, &p_wp, c) {
            Some(ps) => ps,
            None => {
                proof {
                    assert(parse_rec(document_xml@, c0g, cur0, acc0, paths, nai as int)
                        == finalize_q(acc0, cur0));
                }
                break;
            },
        };
        let pe = match find_from(document_xml, &p_endp, ps) {
            Some(pe) => pe,
            None => {
                proof {
                    assert(parse_rec(document_xml@, c0g, cur0, acc0, paths, nai as int)
                        == finalize_q(acc0, cur0));
                }
                break;
            },
        };
        proof {
            reveal_strlit("</w:p>");
            assert(pe + p_endp@.len() <= dlen);
        }
        let end = pe + p_endp.len();
        let block = subrange_chars(document_xml, ps, end);
        let ghost nai_before = nai as int;
        let segs = extract_segments_from_paragraph(&block, assets, &mut nai);
        let ghost ex = spec_extract(
            block@,
            0,
            Seq::empty(),
            Seq::empty(),
            Seq::empty(),
            paths,
            nai_before,
        );
        proof {
            assert(segs_view(segs@) == ex.0 && nai as int == ex.1);
        }
        if segs.len() == 0 {
            proof {
                assert(segs_view(segs@).len() == 0);
                assert(ex.0.len() == 0);
                assert(parse_rec(document_xml@, c0g, cur0, acc0, paths, nai_before) == parse_rec(
                    document_xml@,
                    end as int,
                    optq_view(cur),
                    qs_view(questions@),
                    paths,
                    nai as int,
                ));
            }
            c = end;
        } else {
            proof {
                assert(segs_view(segs@).len() == segs@.len());
            }
            let plain = segments_to_plain_text(&segs);
            let b = skip_spaces(&plain, 0);
            let t = subrange_chars(&plain, b, plain.len());
            match question_match(&t) {
                Some(qp) => {
                    let num = qp.0;
                    let plen = qp.1;
                    match cur {
                        Some(q) => {
                            if q.options.len() > 0 {
                                let ghost bq = questions@;
                                questions.push(q);
                                proof {
                                    lemma_qs_view_push(bq, q);
                                }
                            }
                        },
                        None => {},
                    }
                    proof {
                        assert(b + plen <= plain@.len());
                    }
                    let cap: usize = if plain.len() == usize::MAX {
                        plain.len()
                    } else {
                        plain.len() + 1
                    };
                    let w = segments_window(&segs, b + plen, cap);
                    let stem = trim_first_text_segments(w);
                    let nq = Question {
                        number: num,
                        stem,
                        options: Vec::new(),
                        correct_label: String::new(),
                    };
                    proof {
                        assert(opts_view(nq.options@) =~= Seq::<OptView>::empty());
                    }
                    cur = Some(nq);
                    proof {
                        assert(parse_rec(document_xml@, c0g, cur0, acc0, paths, nai_before)
                            == parse_rec(
                            document_xml@,
                            end as int,
                            optq_view(cur),
                            qs_view(questions@),
                            paths,
                            nai as int,
                        ));
                    }
                    c = end;
                },
                None => {
                    match cur {
                        None => {
                            cur = None;
                            proof {
                                assert(parse_rec(document_xml@, c0g, cur0, acc0, paths, nai_before)
                                    == parse_rec(
                                    document_xml@,
                                    end as int,
                                    optq_view(cur),
                                    qs_view(questions@),
                                    paths,
                                    nai as int,
                                ));
                            }
                            c = end;
                        },
                        Some(mut q) => {
                            let is_label = label_head_len_of(&t, 0).is_some();
                            if is_label {
                                proof {
                                    assert(b + t@.len() == plain@.len());
                                }
                                let mut nopts = split_option_paragraph(
                                    &segs,
                                    plain.len(),
                                    b,
                                    &t,
                                );
                                let ghost qopts_old = q.options@;
                                let ghost nopts_v = nopts@;
                                q.options.append(&mut nopts);
                                proof {
                                    assert(opts_view(q.options@) =~= opts_view(qopts_old)
                                        + opts_view(nopts_v)) by {
                                        assert(q.options@ =~= qopts_old + nopts_v);
                                        assert forall|i: int|
                                            0 <= i < q.options@.len() implies opts_view(
                                            q.options@,
                                        )[i] == (opts_view(qopts_old) + opts_view(nopts_v))[i] by {
                                            if i < qopts_old.len() {
                                                assert(q.options@[i] == qopts_old[i]);
                                            } else {
                                                assert(q.options@[i] == nopts_v[i
                                                    - qopts_old.len()]);
                                            }
                                        }
                                    }
                                }
                                cur = Some(q);
                                proof {
                                    assert(parse_rec(document_xml@, c0g, cur0, acc0, paths,
                                        nai_before) == parse_rec(
                                        document_xml@,
                                        end as int,
                                        optq_view(cur),
                                        qs_view(questions@),
                                        paths,
                                        nai as int,
                                    ));
                                }
                                c = end;
                            } else if q.options.len() == 0 {
                                let mut segs2 = segs;
                                let ghost stem_old = q.stem@;
                                let ghost segs_v = segs2@;
                                q.stem.append(&mut segs2);
                                proof {
                                    assert(segs_view(q.stem@) =~= segs_view(stem_old) + segs_view(
                                        segs_v,
                                    )) by {
                                        assert(q.stem@ =~= stem_old + segs_v);
                                        assert forall|i: int|
                                            0 <= i < q.stem@.len() implies segs_view(q.stem@)[i]
                                            == (segs_view(stem_old) + segs_view(segs_v))[i] by {
                                            if i < stem_old.len() {
                                                assert(q.stem@[i] == stem_old[i]);
                                            } else {
                                                assert(q.stem@[i] == segs_v[i - stem_old.len()]);
                                            }
                                        }
                                    }
                                }
                                cur = Some(q);
                                proof {
                                    assert(parse_rec(document_xml@, c0g, cur0, acc0, paths,
                                        nai_before) == parse_rec(
                                        document_xml@,
                                        end as int,
                                        optq_view(cur),
                                        qs_view(questions@),
                                        paths,
                                        nai as int,
                                    ));
                                }
                                c = end;
                            } else {
                                let mut segs2 = segs;
                                let ghost opts_before = q.options@;
                                let mut last = q.options.pop().unwrap();
                                let ghost qopts_pop = q.options@;
                                let ghost last_old = last;
                                let ghost cont_old = last.content@;
                                let ghost segs_v = segs2@;
                                last.content.append(&mut segs2);
                                proof {
                                    assert(segs_view(last.content@) =~= segs_view(cont_old)
                                        + segs_view(segs_v)) by {
                                        assert(last.content@ =~= cont_old + segs_v);
                                        assert forall|i: int|
                                            0 <= i < last.content@.len() implies segs_view(
                                            last.content@,
                                        )[i] == (segs_view(cont_old) + segs_view(segs_v))[i] by {
                                            if i < cont_old.len() {
                                                assert(last.content@[i] == cont_old[i]);
                                            } else {
                                                assert(last.content@[i] == segs_v[i
                                                    - cont_old.len()]);
                                            }
                                        }
                                    }
                                }
                                let ghost qopts_before_push = q.options@;
                                q.options.push(last);
                                proof {
                                    lemma_opts_view_push(qopts_before_push, last);
                                    let li = opts_before.len() - 1;
                                    assert(q.options@ =~= opts_before.update(li, last));
                                    assert(opts_view(q.options@) =~= opts_view(
                                        opts_before,
                                    ).update(li, opt_view(last))) by {
                                        assert forall|i: int|
                                            0 <= i < q.options@.len() implies opts_view(
                                            q.options@,
                                        )[i] == opts_view(opts_before).update(
                                            li,
                                            opt_view(last),
                                        )[i] by {
                                            if i < li {
                                                assert(q.options@[i] == opts_before[i]);
                                            } else {
                                                assert(q.options@[i] == last);
                                            }
                                        }
                                    }
                                    assert(opt_view(last).content =~= opt_view(
                                        opts_before.last(),
                                    ).content + segs_view(segs_v));
                                    assert(opts_view(opts_before)[li] == opt_view(
                                        opts_before.last(),
                                    ));
                                }
                                cur = Some(q);
                                proof {
                                    assert(parse_rec(document_xml@, c0g, cur0, acc0, paths,
                                        nai_before) == parse_rec(
                                        document_xml@,
                                        end as int,
                                        optq_view(cur),
                                        qs_view(questions@),
                                        paths,
                                        nai as int,
                                    ));
                                }
                                c = end;
                            }
                        },
                    }
                },
            }
        }
    }
    match cur {
        Some(q) => {
            if q.options.len() > 0 {
                let ghost bq = questions@;
                questions.push(q);
                proof {
                    lemma_qs_view_push(bq, q);
                }
            }
        },
        None => {},
    }
    ParsedDoc { questions }
}

/// The plain text of a paragraph's text runs, fragments joined by single
/// spaces.
pub open spec fn spec_wp_text(block: Seq<char>, c: int, acc: Seq<char>) -> Seq<char>
    decreases block.len() + 1 - c,
    via spec_wp_text_decreases
{
    if c < 0 {
        acc
    } else {
        let tpos = min_pos(spec_find(block, "<w:t "@, c), spec_find(block, "<w:t>"@, c));
        if tpos == -1 {
            acc
        } else {
            let gt = spec_find(block, ">"@, tpos);
            if gt == -1 {
                acc
            } else {
                let ce = spec_find(block, "</w:t>"@, gt + 1);
                if ce == -1 {
                    acc
                } else {
                    let frag = xml_unescape(block.subrange(gt + 1, ce));
                    let acc2 = (if acc.len() > 0 {
                        acc + seq![' ']
                    } else {
                        acc
                    }) + frag;
                    spec_wp_text(block, ce + "</w:t>"@.len(), acc2)
                }
            }
        }
    }
}

#[via_fn]
proof fn spec_wp_text_decreases(block: Seq<char>, c: int, acc: Seq<char>) {
    if c >= 0 {
        lemma_spec_find(block, "<w:t "@, c);
        lemma_spec_find(block, "<w:t>"@, c);
        let tpos = min_pos(spec_find(block, "<w:t "@, c), spec_find(block, "<w:t>"@, c));
        if tpos != -1 {
            lemma_spec_find(block, ">"@, tpos);
            let gt = spec_find(block, ">"@, tpos);
            if gt >= 0 {
                lemma_spec_find(block, "</w:t>"@, gt + 1);
            }
        }
    }
}

/// Extract the joined plain text of a paragraph's text runs.
pub fn extract_text_from_w_p(block: &Vec<char>) -> (r: Vec<char>)
    ensures
        r@ == spec_wp_text(block@, 0, Seq::empty()),
{
    let p_wtsp = str_to_chars("<w:t ");
    let p_wtgt = str_to_chars("<w:t>");
    let p_gtc = str_to_chars(">");
    let p_endt = str_to_chars("</w:t>");
    let blen = block.len();
    let mut out: Vec<char> = Vec::new();
    let mut c: usize = 0;
    loop
        invariant
            blen == block@.len(),
            c <= blen,
            p_wtsp@ == "<w:t "@ && p_wtgt@ == "<w:t>"@ && p_gtc@ == ">"@ && p_endt@ == "</w:t>"@,
            spec_wp_text(block@, 0, Seq::empty()) == spec_wp_text(block@, c as int, out@),
        ensures
            spec_wp_text(block@, c as int, out@) == out@,
            spec_wp_text(block@, 0, Seq::empty()) == spec_wp_text(block@, c as int, out@),
        decreases blen + 1 - c,
    {
        let nt1 = find_from(block, &p_wtsp, c);
        let nt2 = find_from(block, &p_wtgt, c);
        let next_text: Option<usize> = match (nt1, nt2) {
            (Some(a), Some(b)) => if a <= b {
                Some(a)
            } else {
                Some(b)
            },
            (Some(a), None) => Some(a),
            (None, Some(b)) => Some(b),
            (None, None) => None,
        };
        let t = match next_text {
            Some(t) => t,
            None => {
                break;
            },
        };
        let gt = match find_from(block, &p_gtc, t) {
            Some(gt) => gt,
            None => {
                break;
            },
        };
        proof {
            reveal_strlit(">");
            assert(gt + 1 <= blen);
        }
        let ce = match find_from(block, &p_endt, gt + 1) {
            Some(ce) => ce,
            None => {
                break;
            },
        };
        let frag_raw = subrange_chars(block, gt + 1, ce);
        let mut frag = unescape_chars(&frag_raw);
        let ghost out_old = out@;
        if out.len() > 0 {
            out.push(' ');
        }
        out.append(&mut frag);
        proof {
            if out_old.len() > 0 {
                assert(out@ =~= (out_old + seq![' ']) + xml_unescape(
                    block@.subrange(gt + 1, ce as int),
                ));
            } else {
                assert(out@ =~= out_old + xml_unescape(block@.subrange(gt + 1, ce as int)));
            }
            assert(ce + p_endt@.len() <= blen);
        }
        let nc = ce + p_endt.len();
        proof {
            assert(spec_wp_text(block@, c as int, out_old) == spec_wp_text(
                block@,
                nc as int,
                out@,
            ));
        }
        c = nc;
    }
    out
}

/// Spec-level image of one styled run.
#[verifier::ext_equal]
pub struct RunView {
    pub text: Seq<char>,
    pub underline: bool,
    pub color: Option<Seq<char>>,
}

/// Styling facts of one run, as the scanner reads them.
#[derive(Debug, Clone)]
pub struct RunInfo {
    pub text: String,
    pub underline: bool,
    pub color: Option<String>,
}

/// The spec-level image of a run.
pub open spec fn run_view(r: RunInfo) -> RunView {
    RunView {
        text: r.text@,
        underline: r.underline,
        color: match r.color {
            Option::Some(c) => Option::Some(c@),
            Option::None => Option::None,
        },
    }
}

/// The spec-level image of a run list.
pub open spec fn runs_view(s: Seq<RunInfo>) -> Seq<RunView> {
    s.map_values(|r: RunInfo| run_view(r))
}

/// Whether the underline element occurs in the run markup with a value
/// other than none; an attribute-less element counts as underlined.
pub open spec fn spec_underline(s: Seq<char>, c: int) -> bool
    decreases s.len() + 1 - c,
    via spec_underline_decreases
{
    if c < 0 {
        false
    } else {
        let up = min_pos(
            min_pos(spec_find(s, "<w:u "@, c), spec_find(s, "<w:u>"@, c)),
            spec_find(s, "<w:u/"@, c),
        );
        if up == -1 {
            false
        } else {
            let gtp = spec_find(s, ">"@, up);
            if gtp == -1 {
                false
            } else {
                let tag = s.subrange(up, gtp + 1);
                if spec_find(tag, "w:val=\"none\""@, 0) == -1 && spec_find(
                    tag,
                    "w:val='none'"@,
                    0,
                ) == -1 {
                    true
                } else {
                    spec_underline(s, gtp + 1)
                }
            }
        }
    }
}

#[via_fn]
proof fn spec_underline_decreases(s: Seq<char>, c: int) {
    if c >= 0 {
        lemma_spec_find(s, "<w:u "@, c);
        lemma_spec_find(s, "<w:u>"@, c);
        lemma_spec_find(s, "<w:u/"@, c);
        let up = min_pos(
            min_pos(spec_find(s, "<w:u "@, c), spec_find(s, "<w:u>"@, c)),
            spec_find(s, "<w:u/"@, c),
        );
        if up >= 0 {
            lemma_spec_find(s, ">"@, up);
            let gtp = spec_find(s, ">"@, up);
            if gtp >= 0 {
                assert(is_at(s, gtp, ">"@));
                assert(">"@.len() > 0) by {
                    reveal_strlit(">");
                }
            }
        }
    }
}

/// Executable underline scan.
pub fn underline_of(s: &Vec<char>) -> (r: bool)
    ensures
        r == spec_underline(s@, 0),
{
    let p_u_sp = str_to_chars("<w:u ");
    let p_u_gt = str_to_chars("<w:u>");
    let p_u_sl = str_to_chars("<w:u/");
    let p_gtc = str_to_chars(">");
    let p_none1 = str_to_chars("w:val=\"none\"");
    let p_none2 = str_to_chars("w:val='none'");
    let slen = s.len();
    let mut c: usize = 0;
    loop
        invariant
            slen == s@.len(),
            c <= slen,
            p_u_sp@ == "<w:u "@ && p_u_gt@ == "<w:u>"@ && p_u_sl@ == "<w:u/"@ && p_gtc@ == ">"@
                && p_none1@ == "w:val=\"none\""@ && p_none2@ == "w:val='none'"@,
            spec_underline(s@, 0) == spec_underline(s@, c as int),
        ensures
            spec_underline(s@, c as int) == false,
            spec_underline(s@, 0) == spec_underline(s@, c as int),
        decreases slen + 1 - c,
    {
        let u1 = find_from(s, &p_u_sp, c);
        let u2 = find_from(s, &p_u_gt, c);
        let u3 = find_from(s, &p_u_sl, c);
        let u12: Option<usize> = match (u1, u2) {
            (Some(a), Some(b)) => if a <= b {
                Some(a)
            } else {
                Some(b)
            },
            (Some(a), None) => Some(a),
            (None, Some(b)) => Some(b),
            (None, None) => None,
        };
        let up = match (u12, u3) {
            (Some(a), Some(b)) => if a <= b {
                a
            } else {
                b
            },
            (Some(a), None) => a,
            (None, Some(b)) => b,
            (None, None) => {
                break;
            },
        };
        let gtp = match find_from(s, &p_gtc, up) {
            Some(gtp) => gtp,
            None => {
                break;
            },
        };
        proof {
            reveal_strlit(">");
            assert(gtp + 1 <= slen);
        }
        let tag = subrange_chars(s, up, gtp + 1);
        let n1 = find_from(&tag, &p_none1, 0);
        let n2 = find_from(&tag, &p_none2, 0);
        if n1.is_none() && n2.is_none() {
            proof {
                assert(spec_underline(s@, c as int) == true);
            }
            return true;
        }
        proof {
            assert(spec_underline(s@, c as int) == spec_underline(s@, gtp + 1));
        }
        c = gtp + 1;
    }
    false
}

/// The first color value written in the run markup, when one is given
/// inside the color element's tag.
pub open spec fn spec_color(s: Seq<char>) -> Option<Seq<char>> {
    let cp = spec_find(s, "<w:color"@, 0);
    if cp == -1 {
        Option::None
    } else {
        let gtp = spec_find(s, ">"@, cp);
        let vp = spec_find(s, "w:val=\""@, cp);
        if vp == -1 || (gtp != -1 && vp > gtp) {
            Option::None
        } else {
            let vs = vp + "w:val=\""@.len();
            let ve = spec_find(s, "\""@, vs);
            if ve == -1 || ve == vs {
                Option::None
            } else {
                Option::Some(s.subrange(vs, ve))
            }
        }
    }
}

/// Executable color scan.
pub fn color_of(s: &Vec<char>) -> (r: Option<String>)
    ensures
        match r {
            Some(c) => spec_color(s@) == Option::Some(c@),
            None => spec_color(s@) is None,
        },
{
    let p_color = str_to_chars("<w:color");
    let p_gtc = str_to_chars(">");
    let p_val = str_to_chars("w:val=\"");
    let p_quote = str_to_chars("\"");
    let slen = s.len();
    let cp = match find_from(s, &p_color, 0) {
        Some(cp) => cp,
        None => {
            return None;
        },
    };
    let gtp = find_from(s, &p_gtc, cp);
    let vp = match find_from(s, &p_val, cp) {
        Some(vp) => vp,
        None => {
            return None;
        },
    };
    match gtp {
        Some(g) => {
            if vp > g {
                return None;
            }
        },
        None => {},
    }
    proof {
        assert(vp + p_val@.len() <= slen);
    }
    let vs = vp + p_val.len();
    let ve = match find_from(s, &p_quote, vs) {
        Some(ve) => ve,
        None => {
            return None;
        },
    };
    if ve == vs {
        return None;
    }
    let v = subrange_chars(s, vs, ve);
    Some(chars_to_string(&v))
}

/// The styled runs of one paragraph: each run's joined trimmed text with
/// its underline and color facts; runs with all-space text are dropped.
pub open spec fn spec_runs(block: Seq<char>, c: int, acc: Seq<RunView>) -> Seq<RunView>
    decreases block.len() + 1 - c,
    via spec_runs_decreases
{
    if c < 0 {
        acc
    } else {
        let rpos = min_pos(spec_find(block, "<w:r "@, c), spec_find(block, "<w:r>"@, c));
        if rpos == -1 {
            acc
        } else {
            let re = spec_find(block, "</w:r>"@, rpos);
            if re == -1 {
                acc
            } else {
                let rend = re + "</w:r>"@.len();
                let rb = block.subrange(rpos, rend);
                let text = spec_trim(spec_wp_text(rb, 0, Seq::empty()));
                if text.len() == 0 {
                    spec_runs(block, rend, acc)
                } else {
                    spec_runs(
                        block,
                        rend,
                        acc.push(
                            RunView {
                                text: text,
                                underline: spec_underline(rb, 0),
                                color: spec_color(rb),
                            },
                        ),
                    )
                }
            }
        }
    }
}

#[via_fn]
proof fn spec_runs_decreases(block: Seq<char>, c: int, acc: Seq<RunView>) {
    if c >= 0 {
        lemma_spec_find(block, "<w:r "@, c);
        lemma_spec_find(block, "<w:r>"@, c);
        let rpos = min_pos(spec_find(block, "<w:r "@, c), spec_find(block, "<w:r>"@, c));
        if rpos != -1 {
            lemma_spec_find(block, "</w:r>"@, rpos);
            let re = spec_find(block, "</w:r>"@, rpos);
            if re >= 0 {
                assert(is_at(block, re, "</w:r>"@));
                assert("</w:r>"@.len() > 0) by {
                    reveal_strlit("</w:r>");
                }
            }
        }
    }
}

/// Extract the styled runs of one paragraph.
pub fn extract_runs_from_w_p(block: &Vec<char>) -> (r: Vec<RunInfo>)
    ensures
        runs_view(r@) == spec_runs(block@, 0, Seq::empty()),
{
    let p_rsp = str_to_chars("<w:r ");
    let p_rgt = str_to_chars("<w:r>");
    let p_endr = str_to_chars("</w:r>");
    let blen = block.len();
    let mut out: Vec<RunInfo> = Vec::new();
    let mut c: usize = 0;
    proof {
        assert(runs_view(out@) =~= Seq::<RunView>::empty());
    }
    loop
        invariant
            blen == block@.len(),
            c <= blen,
            p_rsp@ == "<w:r "@ && p_rgt@ == "<w:r>"@ && p_endr@ == "</w:r>"@,
            spec_runs(block@, 0, Seq::empty()) == spec_runs(block@, c as int, runs_view(out@)),
        ensures
            spec_runs(block@, c as int, runs_view(out@)) == runs_view(out@),
            spec_runs(block@, 0, Seq::empty()) == spec_runs(block@, c as int, runs_view(out@)),
        decreases blen + 1 - c,
    {
        let nr1 = find_from(block, &p_rsp, c);
        let nr2 = find_from(block, &p_rgt, c);
        let next_run: Option<usize> = match (nr1, nr2) {
            (Some(a), Some(b)) => if a <= b {
                Some(a)
            } else {
                Some(b)
            },
            (Some(a), None) => Some(a),
            (None, Some(b)) => Some(b),
            (None, None) => None,
        };
        let rp = match next_run {
            Some(rp) => rp,
            None => {
                break;
            },
        };
        let re = match find_from(block, &p_endr, rp) {
            Some(re) => re,
            None => {
                break;
            },
        };
        proof {
            reveal_strlit("</w:r>");
            assert(re + p_endr@.len() <= blen);
        }
        let rend = re + p_endr.len();
        let rb = subrange_chars(block, rp, rend);
        let tx = extract_text_from_w_p(&rb);
        let tt = trim_chars(&tx);
        if tt.len() == 0 {
            proof {
                assert(spec_runs(block@, c as int, runs_view(out@)) == spec_runs(
                    block@,
                    rend as int,
                    runs_view(out@),
                ));
            }
            c = rend;
        } else {
            let underline = underline_of(&rb);
            let color = color_of(&rb);
            let text = chars_to_string(&tt);
            let ri = RunInfo { text, underline, color };
            let ghost before = out@;
            out.push(ri);
            proof {
                assert(runs_view(out@) =~= runs_view(before).push(run_view(ri))) by {
                    assert forall|i: int|
                        0 <= i < out@.len() implies runs_view(out@)[i] == runs_view(before).push(
                        run_view(ri),
                    )[i] by {
                        if i < before.len() {
                            assert(out@[i] == before[i]);
                        } else {
                            assert(out@[i] == ri);
                        }
                    }
                }
                assert(run_view(ri) == RunView {
                    text: spec_trim(spec_wp_text(rb@, 0, Seq::empty())),
                    underline: spec_underline(rb@, 0),
                    color: spec_color(rb@),
                });
                assert(spec_runs(block@, c as int, runs_view(before)) == spec_runs(
                    block@,
                    rend as int,
                    runs_view(out@),
                ));
            }
            c = rend;
        }
    }
    out
}

/// Spec-level image of one style fact.
#[verifier::ext_equal]
pub struct StyleView {
    pub underline: bool,
    pub color: Option<Seq<char>>,
}

/// Spec-level image of one labeled option's runs.
#[verifier::ext_equal]
pub struct LabeledRunsView {
    pub label: Seq<char>,
    pub runs: Seq<StyleView>,
}

/// The spec-level image of one style fact.
pub open spec fn style_view(s: LabelRunStyle) -> StyleView {
    StyleView {
        underline: s.underline,
        color: match s.color {
            Option::Some(c) => Option::Some(c@),
            Option::None => Option::None,
        },
    }
}

/// The spec-level image of a style list.
pub open spec fn styles_view(s: Seq<LabelRunStyle>) -> Seq<StyleView> {
    s.map_values(|x: LabelRunStyle| style_view(x))
}

/// The spec-level image of one labeled option's runs.
pub open spec fn lor_view(x: LabeledOptionRuns) -> LabeledRunsView {
    LabeledRunsView { label: x.label@, runs: styles_view(x.runs@) }
}

/// The spec-level image of a labeled-runs list.
pub open spec fn lors_view(v: Seq<LabeledOptionRuns>) -> Seq<LabeledRunsView> {
    v.map_values(|x: LabeledOptionRuns| lor_view(x))
}

/// The spec-level image of the whole per-question map.
pub open spec fn lors_map_view(m: Map<u32, Vec<LabeledOptionRuns>>) -> Map<u32, Seq<
    LabeledRunsView,
>> {
    Map::new(|k: u32| m.contains_key(k), |k: u32| lors_view(m[k]@))
}

/// The letter offset of a run text shaped like an option label (an
/// optional lock marker, a letter A-F, then a dot or the end), or -1.
pub open spec fn run_label_offset(t: Seq<char>) -> int {
    let o: int = if t.len() > 0 && t[0] == '#' {
        1
    } else {
        0
    };
    if t.len() > o && 'A' <= t[o] && t[o] <= 'F' && (t.len() == o + 1 || t[o + 1] == '.') {
        o
    } else {
        -1
    }
}

/// The first entry carrying this label, at or after `i`.
pub open spec fn find_label_idx(v: Seq<LabeledRunsView>, label: Seq<char>, i: int) -> int
    decreases v.len() + 1 - i,
{
    if i < 0 || i >= v.len() {
        -1
    } else if v[i].label == label {
        i
    } else {
        find_label_idx(v, label, i + 1)
    }
}

/// Record one marked-looking run under its label: appended to the entry
/// already carrying the label, or opening a new entry.
pub open spec fn add_label_run(
    v: Seq<LabeledRunsView>,
    label: Seq<char>,
    st: StyleView,
) -> Seq<LabeledRunsView> {
    let i = find_label_idx(v, label, 0);
    if i >= 0 {
        v.update(i, LabeledRunsView { label: v[i].label, runs: v[i].runs.push(st) })
    } else {
        v.push(LabeledRunsView { label: label, runs: seq![st] })
    }
}

/// Fold a paragraph's runs into the question's entry list: each run whose
/// text is shaped like an option label contributes its style facts.
pub open spec fn fold_runs(v: Seq<LabeledRunsView>, runs: Seq<RunView>, k: int) -> Seq<
    LabeledRunsView,
>
    decreases runs.len() + 1 - k,
{
    if k < 0 || k >= runs.len() {
        v
    } else {
        let t = runs[k].text;
        let o = run_label_offset(t);
        let v2 = if o >= 0 {
            add_label_run(
                v,
                seq![t[o]],
                StyleView { underline: runs[k].underline, color: runs[k].color },
            )
        } else {
            v
        };
        fold_runs(v2, runs, k + 1)
    }
}

/// The whole scan for styled label runs: paragraph by paragraph, tracking
/// the current question number, collecting for each question the style
/// facts of every run whose text looks like an option label.
pub open spec fn collect_rec(
    doc: Seq<char>,
    c: int,
    curq: Option<u32>,
    m: Map<u32, Seq<LabeledRunsView>>,
) -> Map<u32, Seq<LabeledRunsView>>
    decreases doc.len() + 1 - c,
    via collect_rec_decreases
{
    if c < 0 {
        m
    } else {
        let ps = spec_find(doc, "<w:p"@, c);
        if ps == -1 {
            m
        } else {
            let pe = spec_find(doc, "</w:p>"@, ps);
            if pe == -1 {
                m
            } else {
                let end = pe + "</w:p>"@.len();
                let block = doc.subrange(ps, end);
                let trimmed = spec_trim(spec_wp_text(block, 0, Seq::empty()));
                if trimmed.len() == 0 {
                    collect_rec(doc, end, curq, m)
                } else if q_prefix_end(trimmed) >= 0 {
                    collect_rec(doc, end, Option::Some(q_number_of(trimmed)), m)
                } else {
                    match curq {
                        Option::None => collect_rec(doc, end, Option::None, m),
                        Option::Some(qn) => {
                            let runs = spec_runs(block, 0, Seq::empty());
                            if runs.len() == 0 {
                                collect_rec(doc, end, curq, m)
                            } else {
                                let ent = if m.contains_key(qn) {
                                    m[qn]
                                } else {
                                    Seq::empty()
                                };
                                let ent2 = fold_runs(ent, runs, 0);
                                collect_rec(doc, end, curq, m.insert(qn, ent2))
                            }
                        },
                    }
                }
            }
        }
    }
}

#[via_fn]
proof fn collect_rec_decreases(
    doc: Seq<char>,
    c: int,
    curq: Option<u32>,
    m: Map<u32, Seq<LabeledRunsView>>,
) {
    if c >= 0 {
        lemma_spec_find(doc, "<w:p"@, c);
        let ps = spec_find(doc, "<w:p"@, c);
        if ps >= 0 {
            lemma_spec_find(doc, "</w:p>"@, ps);
            let pe = spec_find(doc, "</w:p>"@, ps);
            if pe >= 0 {
                assert(c < pe + "</w:p>"@.len() <= doc.len()) by {
                    assert(is_at(doc, pe, "</w:p>"@));
                    assert("</w:p>"@.len() > 0) by {
                        reveal_strlit("</w:p>");
                    }
                }
            }
        }
    }
}

/// An exact copy of one style fact.
fn clone_style(s: &LabelRunStyle) -> (r: LabelRunStyle)
    ensures
        r == *s,
{
    LabelRunStyle {
        underline: s.underline,
        color: match &s.color {
            Some(c) => Some(c.clone()),
            None => None,
        },
    }
}

/// An exact copy of one labeled entry, at the level of views.
fn clone_lor(x: &LabeledOptionRuns) -> (r: LabeledOptionRuns)
    ensures
        lor_view(r) == lor_view(*x),
        r.label@ == x.label@,
        r.runs@ == x.runs@,
{
    let mut runs: Vec<LabelRunStyle> = Vec::new();
    let mut i: usize = 0;
    while i < x.runs.len()
        invariant
            i <= x.runs@.len(),
            runs@ =~= x.runs@.subrange(0, i as int),
        decreases x.runs@.len() - i,
    {
        runs.push(clone_style(&x.runs[i]));
        proof {
            assert(runs@ =~= x.runs@.subrange(0, i + 1));
        }
        i = i + 1;
    }
    proof {
        assert(runs@ =~= x.runs@);
    }
    LabeledOptionRuns { label: x.label.clone(), runs }
}

/// An exact copy of an entry list, at the level of views.
fn clone_lors(v: &Vec<LabeledOptionRuns>) -> (r: Vec<LabeledOptionRuns>)
    ensures
        lors_view(r@) == lors_view(v@),
{
    let mut r: Vec<LabeledOptionRuns> = Vec::new();
    let mut i: usize = 0;
    proof {
        assert(lors_view(r@) =~= lors_view(v@).subrange(0, 0));
    }
    while i < v.len()
        invariant
            i <= v@.len(),
            r@.len() == i,
            forall|k: int| 0 <= k < i ==> lor_view(#[trigger] r@[k]) == lor_view(v@[k]),
        decreases v@.len() - i,
    {
        let ghost before = r@;
        r.push(clone_lor(&v[i]));
        proof {
            assert forall|k: int| 0 <= k < i + 1 implies lor_view(#[trigger] r@[k]) == lor_view(
                v@[k],
            ) by {
                if k < before.len() {
                    assert(r@[k] == before[k]);
                }
            }
        }
        i = i + 1;
    }
    proof {
        assert(lors_view(r@) =~= lors_view(v@));
    }
    r
}

/// Fold one paragraph's runs into the cloned entry list, executably.
fn fold_runs_exec(entry: Vec<LabeledOptionRuns>, runs: &Vec<RunInfo>) -> (r: Vec<
    LabeledOptionRuns,
>)
    ensures
        lors_view(r@) == fold_runs(lors_view(entry@), runs_view(runs@), 0),
{
    let ghost entry_in = entry@;
    let ghost rv = runs_view(runs@);
    let mut entry = entry;
    let ghost e0 = lors_view(entry@);
    let mut k: usize = 0;
    while k < runs.len()
        invariant
            k <= runs@.len(),
            rv == runs_view(runs@),
            fold_runs(lors_view(entry@), rv, k as int) == fold_runs(e0, rv, 0),
        decreases runs@.len() - k,
    {
        proof {
            assert(rv[k as int] == run_view(runs@[k as int]));
        }
        let t = str_to_chars(runs[k].text.as_str());
        let o: usize = if t.len() > 0 && t[0] == '#' {
            1
        } else {
            0
        };
        let is_label = t.len() > o && 'A' <= t[o] && t[o] <= 'F' && (t.len() == o + 1 || t[o + 1]
            == '.');
        if is_label {
            proof {
                assert(run_label_offset(t@) == o as int);
            }
            let lc = t[o];
            let st = LabelRunStyle {
                underline: runs[k].underline,
                color: match &runs[k].color {
                    Some(c) => Some(c.clone()),
                    None => None,
                },
            };
            proof {
                assert(style_view(st) == StyleView {
                    underline: rv[k as int].underline,
                    color: rv[k as int].color,
                });
            }
            let mut j: usize = 0;
            let mut found: Option<usize> = None;
            let ghost ev = lors_view(entry@);
            while j < entry.len()
                invariant_except_break
                    found is None,
                    find_label_idx(ev, seq![lc], 0) == find_label_idx(ev, seq![lc], j as int),
                invariant
                    j <= entry@.len(),
                    ev == lors_view(entry@),
                    ev.len() == entry@.len(),
                ensures
                    match found {
                        Option::Some(fj) => fj < entry@.len() && find_label_idx(
                            ev,
                            seq![lc],
                            0,
                        ) == fj as int && ev[fj as int].label == seq![lc],
                        Option::None => find_label_idx(ev, seq![lc], 0) == -1,
                    },
                decreases entry@.len() - j,
            {
                let el = str_to_chars(entry[j].label.as_str());
                let m = el.len() == 1 && el[0] == lc;
                proof {
                    assert(ev[j as int] == lor_view(entry@[j as int]));
                    if m {
                        assert(el@ =~= seq![lc]);
                        assert(ev[j as int].label == seq![lc]);
                    } else {
                        if el@.len() == 1 {
                            assert(el@[0] != lc);
                            assert(!(ev[j as int].label =~= seq![lc]));
                        } else {
                            assert(ev[j as int].label.len() != 1);
                        }
                        assert(ev[j as int].label != seq![lc]);
                        assert(find_label_idx(ev, seq![lc], j as int) == find_label_idx(
                            ev,
                            seq![lc],
                            j + 1,
                        ));
                    }
                }
                if m {
                    proof {
                        assert(ev.len() == entry@.len());
                        assert(j < ev.len());
                        assert(ev[j as int].label == seq![lc]);
                        assert(find_label_idx(ev, seq![lc], j as int) == j);
                        assert(find_label_idx(ev, seq![lc], 0) == j as int);
                    }
                    found = Some(j);
                    break;
                }
                j = j + 1;
            }
            let ghost entry_old = entry@;
            match found {
                Some(fj) => {
                    let mut newentry: Vec<LabeledOptionRuns> = Vec::new();
                    let mut q: usize = 0;
                    while q < entry.len()
                        invariant
                            q <= entry@.len(),
                            entry@ == entry_old,
                            ev == lors_view(entry@),
                            fj < entry@.len(),
                            ev[fj as int].label == seq![lc],
                            newentry@.len() == q,
                            forall|w: int|
                                0 <= w < q && w != fj ==> lor_view(#[trigger] newentry@[w])
                                    == ev[w],
                            fj < q ==> lor_view(newentry@[fj as int]) == (LabeledRunsView {
                                label: ev[fj as int].label,
                                runs: ev[fj as int].runs.push(style_view(st)),
                            }),
                        decreases entry@.len() - q,
                    {
                        if q == fj {
                            let mut item = clone_lor(&entry[q]);
                            item.runs.push(clone_style(&st));
                            proof {
                                assert(styles_view(item.runs@) =~= lor_view(
                                    entry@[q as int],
                                ).runs.push(style_view(st))) by {
                                    let base = item.runs@.drop_last();
                                    assert(styles_view(item.runs@).len() == item.runs@.len());
                                    assert forall|w: int|
                                        0 <= w < item.runs@.len() implies styles_view(
                                        item.runs@,
                                    )[w] == lor_view(entry@[q as int]).runs.push(
                                        style_view(st),
                                    )[w] by {
                                        if w < item.runs@.len() - 1 {
                                            assert(item.runs@[w] == entry@[q as int].runs@[w]);
                                        } else {
                                            assert(item.runs@[w] == st);
                                        }
                                    }
                                }
                            }
                            newentry.push(item);
                        } else {
                            let item = clone_lor(&entry[q]);
                            newentry.push(item);
                        }
                        q = q + 1;
                    }
                    entry = newentry;
                    proof {
                        assert(lors_view(entry@) =~= add_label_run(ev, seq![lc], style_view(st)))
                            by {
                            assert forall|w: int|
                                0 <= w < entry@.len() implies lors_view(entry@)[w]
                                == add_label_run(ev, seq![lc], style_view(st))[w] by {}
                        }
                    }
                },
                None => {
                    let mut lv: Vec<char> = Vec::new();
                    lv.push(lc);
                    proof {
                        assert(lv@ =~= seq![lc]);
                    }
                    let label = chars_to_string(&lv);
                    let mut rr: Vec<LabelRunStyle> = Vec::new();
                    rr.push(st);
                    proof {
                        assert(rr@ =~= seq![st]);
                        assert(styles_view(rr@) =~= seq![style_view(st)]);
                    }
                    let item = LabeledOptionRuns { label, runs: rr };
                    entry.push(item);
                    proof {
                        assert(lors_view(entry@) =~= add_label_run(
                            ev,
                            seq![lc],
                            style_view(st),
                        )) by {
                            assert forall|q: int|
                                0 <= q < entry@.len() implies lors_view(entry@)[q]
                                == add_label_run(ev, seq![lc], style_view(st))[q] by {
                                if q < entry_old.len() {
                                    assert(entry@[q] == entry_old[q]);
                                } else {
                                    assert(entry@[q] == item);
                                    assert(lor_view(item).label =~= seq![lc]);
                                    assert(lor_view(item).runs =~= seq![style_view(st)]);
                                }
                            }
                        }
                    }
                },
            }
            proof {
                assert(fold_runs(lors_view(entry@), rv, k + 1) == fold_runs(ev, rv, k as int));
            }
        } else {
            proof {
                assert(run_label_offset(t@) == -1);
                assert(fold_runs(lors_view(entry@), rv, k + 1) == fold_runs(
                    lors_view(entry@),
                    rv,
                    k as int,
                ));
            }
        }
        k = k + 1;
    }
    proof {
        assert(fold_runs(lors_view(entry@), rv, runs@.len() as int) == lors_view(entry@));
    }
    entry
}

/// Scan the whole document and collect, for each question number, the
/// style facts of every run whose text is shaped like an option label.
pub fn collect_labeled_option_runs(document_xml: &Vec<char>) -> (r: HashMap<u32, Vec<
    LabeledOptionRuns,
>>)
    ensures
        lors_map_view(r@) == collect_rec(document_xml@, 0, Option::None, Map::empty()),
{
    broadcast use vstd::std_specs::hash::group_hash_axioms;

    let p_wp = str_to_chars("<w:p");
    let p_endp = str_to_chars("</w:p>");
    let mut m: HashMap<u32, Vec<LabeledOptionRuns>> = HashMap::new();
    let mut curq: Option<u32> = None;
    let mut c: usize = 0;
    let dlen = document_xml.len();
    proof {
        assert(lors_map_view(m@) =~= Map::<u32, Seq<LabeledRunsView>>::empty());
    }
    loop
        invariant
            p_wp@ == "<w:p"@,
            p_endp@ == "</w:p>"@,
            dlen == document_xml@.len(),
            c <= dlen,
            collect_rec(document_xml@, 0, Option::None, Map::empty()) == collect_rec(
                document_xml@,
                c as int,
                curq,
                lors_map_view(m@),
            ),
        ensures
            collect_rec(document_xml@, c as int, curq, lors_map_view(m@)) == lors_map_view(m@),
            collect_rec(document_xml@, 0, Option::None, Map::empty()) == collect_rec(
                document_xml@,
                c as int,
                curq,
                lors_map_view(m@),
            ),
        decreases dlen + 1 - c,
    {
        let ps = match find_from(document_xml, &p_wp, c) {
            Some(ps) => ps,
            None => {
                break;
            },
        };
        let pe = match find_from(document_xml, &p_endp, ps) {
            Some(pe) => pe,
            None => {
                break;
            },
        };
        proof {
            reveal_strlit("</w:p>");
            assert(pe + p_endp@.len() <= dlen);
        }
        let end = pe + p_endp.len();
        let block = subrange_chars(document_xml, ps, end);
        let tx = extract_text_from_w_p(&block);
        let tt = trim_chars(&tx);
        if tt.len() == 0 {
            proof {
                assert(collect_rec(document_xml@, c as int, curq, lors_map_view(m@))
                    == collect_rec(document_xml@, end as int, curq, lors_map_view(m@)));
            }
            c = end;
        } else {
            match question_match(&tt) {
                Some(qp) => {
                    curq = Some(qp.0);
                    c = end;
                },
                None => {
                    match curq {
                        None => {
                            c = end;
                        },
                        Some(qn) => {
                            let runs = extract_runs_from_w_p(&block);
                            if runs.len() == 0 {
                                proof {
                                    assert(runs_view(runs@).len() == 0);
                                }
                                c = end;
                            } else {
                                proof {
                                    assert(runs_view(runs@).len() == runs@.len());
                                }
                                let entry: Vec<LabeledOptionRuns> = if m.contains_key(&qn) {
                                    clone_lors(m.get(&qn).unwrap())
                                } else {
                                    Vec::new()
                                };
                                proof {
                                    if m@.contains_key(qn) {
                                        assert(lors_view(entry@) == lors_map_view(m@)[qn]);
                                    } else {
                                        assert(lors_view(entry@) =~= Seq::<
                                            LabeledRunsView,
                                        >::empty());
                                    }
                                }
                                let ghost mv_old = lors_map_view(m@);
                                let entry2 = fold_runs_exec(entry, &runs);
                                m.insert(qn, entry2);
                                proof {
                                    assert(lors_map_view(m@) =~= mv_old.insert(
                                        qn,
                                        fold_runs(
                                            if mv_old.contains_key(qn) {
                                                mv_old[qn]
                                            } else {
                                                Seq::empty()
                                            },
                                            runs_view(runs@),
                                            0,
                                        ),
                                    ));
                                }
                                c = end;
                            }
                        },
                    }
                },
            }
        }
    }
    m
}

/// An inline piece of a paragraph, before conversion to segments: text
/// from normal runs, math with its raw markup, or an inline image to be
/// correlated with the asset list by order of appearance.
#[derive(Debug, Clone)]
pub enum InlinePiece {
    Text(String),
    Math { omml: String },
    Image,
}

/// The segments built from inline pieces: empty text is dropped, math
/// keeps its markup, and each image takes the next unconsumed asset path
/// (or an empty path when assets are exhausted), with default dimensions.
pub open spec fn pieces_rec(
    pieces: Seq<InlinePiece>,
    i: int,
    assets: Seq<Seq<char>>,
    acur: int,
) -> (Seq<SegView>, int)
    decreases pieces.len() + 1 - i,
{
    if i < 0 || i >= pieces.len() {
        (Seq::empty(), acur)
    } else {
        match pieces[i] {
            InlinePiece::Text(t) => {
                let r = pieces_rec(pieces, i + 1, assets, acur);
                if t@.len() > 0 {
                    (seq![SegView::Text { text: t@, raw: Seq::empty() }] + r.0, r.1)
                } else {
                    r
                }
            },
            InlinePiece::Math { omml } => {
                let r = pieces_rec(pieces, i + 1, assets, acur);
                (seq![SegView::Math { omml: omml@, raw: Seq::empty() }] + r.0, r.1)
            },
            InlinePiece::Image => {
                let path = if 0 <= acur < assets.len() {
                    assets[acur]
                } else {
                    Seq::empty()
                };
                let acur2 = if 0 <= acur < assets.len() {
                    acur + 1
                } else {
                    acur
                };
                let r = pieces_rec(pieces, i + 1, assets, acur2);
                (
                    seq![SegView::Image { asset: path, raw: Seq::empty(), w: 914400, h: 914400 }]
                        + r.0,
                    r.1,
                )
            },
        }
    }
}

/// Convert inline pieces in document order into segments, correlating each
/// image with the next unconsumed asset through the shared cursor.
pub fn build_segments_from_pieces(
    pieces: &Vec<InlinePiece>,
    assets: &Vec<ExtractedAsset>,
    next_asset_index: &mut usize,
) -> (r: Vec<Segment>)
    ensures
        ({
            let out = pieces_rec(
                pieces@,
                0,
                asset_paths(assets@),
                *old(next_asset_index) as int,
            );
            segs_view(r@) == out.0 && *final(next_asset_index) as int == out.1
        }),
{
    let ghost paths = asset_paths(assets@);
    let ghost a0 = *next_asset_index as int;
    let mut out: Vec<Segment> = Vec::new();
    let mut i: usize = 0;
    proof {
        assert(segs_view(out@) =~= Seq::<SegView>::empty());
    }
    while i < pieces.len()
        invariant
            i <= pieces@.len(),
            paths == asset_paths(assets@),
            ({
                let full = pieces_rec(pieces@, 0, paths, a0);
                let rest = pieces_rec(pieces@, i as int, paths, *next_asset_index as int);
                full.0 == segs_view(out@) + rest.0 && full.1 == rest.1
            }),
        decreases pieces@.len() - i,
    {
        let ghost full = pieces_rec(pieces@, 0, paths, a0);
        let ghost ai_old = *next_asset_index as int;
        match &pieces[i] {
            InlinePiece::Text(t) => {
                if t.as_str().unicode_len() > 0 {
                    let seg = Segment::Text { text: t.clone(), raw_xml: String::new() };
                    let ghost before = out@;
                    out.push(seg);
                    proof {
                        lemma_segs_view_push(before, seg);
                        let rest = pieces_rec(pieces@, i as int, paths, ai_old);
                        let rest2 = pieces_rec(pieces@, i + 1, paths, ai_old);
                        assert(rest.0 =~= seq![seg_view(seg)] + rest2.0);
                        assert(segs_view(out@) + rest2.0 =~= full.0);
                    }
                } else {
                    proof {
                        assert(t@.len() == 0);
                    }
                }
            },
            InlinePiece::Math { omml } => {
                let seg = Segment::Math { omml: omml.clone(), raw_xml: String::new() };
                let ghost before = out@;
                out.push(seg);
                proof {
                    lemma_segs_view_push(before, seg);
                    let rest = pieces_rec(pieces@, i as int, paths, ai_old);
                    let rest2 = pieces_rec(pieces@, i + 1, paths, ai_old);
                    assert(rest.0 =~= seq![seg_view(seg)] + rest2.0);
                    assert(segs_view(out@) + rest2.0 =~= full.0);
                }
            },
            InlinePiece::Image => {
                let path: String = if *next_asset_index < assets.len() {
                    let p = assets[*next_asset_index].absolute_path.clone();
                    proof {
                        assert(paths[*next_asset_index as int]
                            == assets@[*next_asset_index as int].absolute_path@);
                    }
                    *next_asset_index = *next_asset_index + 1;
                    p
                } else {
                    proof {
                        assert(paths.len() == assets@.len());
                    }
                    String::new()
                };
                let seg = Segment::Image {
                    asset_path: path,
                    raw_xml: String::new(),
                    width_emu: 914400,
                    height_emu: 914400,
                };
                let ghost before = out@;
                out.push(seg);
                proof {
                    lemma_segs_view_push(before, seg);
                    let rest = pieces_rec(pieces@, i as int, paths, ai_old);
                    let rest2 = pieces_rec(pieces@, i + 1, paths, *next_asset_index as int);
                    assert(rest.0 =~= seq![seg_view(seg)] + rest2.0);
                    assert(segs_view(out@) + rest2.0 =~= full.0);
                }
            },
        }
        i = i + 1;
    }
    proof {
        let rest = pieces_rec(pieces@, pieces@.len() as int, paths, *next_asset_index as int);
        assert(rest.0 =~= Seq::<SegView>::empty());
        assert(segs_view(out@) =~= segs_view(out@) + rest.0);
    }
    out
}

/// The document-model invariant: a question with zero options is
/// discarded before the document is finalized, so every question the
/// parse returns carries at least one option.
pub proof fn lemma_parse_rec_questions_have_options(
    doc: Seq<char>,
    c: int,
    cur: Option<QView>,
    acc: Seq<QView>,
    assets: Seq<Seq<char>>,
    acur: int,
)
    requires
        forall|i: int| 0 <= i < acc.len() ==> (#[trigger] acc[i]).options.len() > 0,
    ensures
        forall|i: int|
            0 <= i < parse_rec(doc, c, cur, acc, assets, acur).len() ==> (#[trigger] parse_rec(
                doc,
                c,
                cur,
                acc,
                assets,
                acur,
            )[i]).options.len() > 0,
    decreases doc.len() + 1 - c,
{
    if c < 0 {
        lemma_finalize_keeps_options(acc, cur);
    } else {
        lemma_spec_find(doc, "<w:p"@, c);
        let ps = spec_find(doc, "<w:p"@, c);
        if ps == -1 {
            lemma_finalize_keeps_options(acc, cur);
        } else {
            lemma_spec_find(doc, "</w:p>"@, ps);
            let pe = spec_find(doc, "</w:p>"@, ps);
            if pe == -1 {
                lemma_finalize_keeps_options(acc, cur);
            } else {
                assert(c < pe + "</w:p>"@.len() <= doc.len()) by {
                    assert(is_at(doc, pe, "</w:p>"@));
                    assert("</w:p>"@.len() > 0) by {
                        reveal_strlit("</w:p>");
                    }
                }
                let end = pe + "</w:p>"@.len();
                let block = doc.subrange(ps, end);
                let ex = spec_extract(
                    block,
                    0,
                    Seq::empty(),
                    Seq::empty(),
                    Seq::empty(),
                    assets,
                    acur,
                );
                if ex.0.len() == 0 {
                    assert(parse_rec(doc, c, cur, acc, assets, acur) == parse_rec(
                        doc,
                        end,
                        cur,
                        acc,
                        assets,
                        ex.1,
                    ));
                    lemma_parse_rec_questions_have_options(doc, end, cur, acc, assets, ex.1);
                } else {
                    let plain = spec_plain(ex.0);
                    let b = first_non_space(plain, 0);
                    let t = plain.subrange(b, plain.len() as int);
                    if q_prefix_end(t) >= 0 {
                        let stem = trim_first_text(
                            spec_window(ex.0, 0, b + q_prefix_end(t), tail_to(plain.len() as int)),
                        );
                        let nq = QView {
                            number: q_number_of(t),
                            stem: stem,
                            options: Seq::empty(),
                            correct: Seq::empty(),
                        };
                        assert(parse_rec(doc, c, cur, acc, assets, acur) == parse_rec(
                            doc,
                            end,
                            Option::Some(nq),
                            finalize_q(acc, cur),
                            assets,
                            ex.1,
                        ));
                        lemma_finalize_keeps_options(acc, cur);
                        lemma_parse_rec_questions_have_options(
                            doc,
                            end,
                            Option::Some(nq),
                            finalize_q(acc, cur),
                            assets,
                            ex.1,
                        );
                    } else {
                        match cur {
                            Option::None => {
                                assert(parse_rec(doc, c, cur, acc, assets, acur) == parse_rec(
                                    doc,
                                    end,
                                    Option::None,
                                    acc,
                                    assets,
                                    ex.1,
                                ));
                                lemma_parse_rec_questions_have_options(
                                    doc,
                                    end,
                                    Option::None,
                                    acc,
                                    assets,
                                    ex.1,
                                );
                            },
                            Option::Some(q0) => {
                                if label_head_len(t, 0) != -1 {
                                    let nopts = split_opts(ex.0, b, plain.len() as int, t, 0);
                                    let q1 = QView {
                                        number: q0.number,
                                        stem: q0.stem,
                                        options: q0.options + nopts,
                                        correct: q0.correct,
                                    };
                                    assert(parse_rec(doc, c, cur, acc, assets, acur)
                                        == parse_rec(
                                        doc,
                                        end,
                                        Option::Some(q1),
                                        acc,
                                        assets,
                                        ex.1,
                                    ));
                                    lemma_parse_rec_questions_have_options(
                                        doc,
                                        end,
                                        Option::Some(q1),
                                        acc,
                                        assets,
                                        ex.1,
                                    );
                                } else if q0.options.len() == 0 {
                                    let q1 = QView {
                                        number: q0.number,
                                        stem: q0.stem + ex.0,
                                        options: q0.options,
                                        correct: q0.correct,
                                    };
                                    assert(parse_rec(doc, c, cur, acc, assets, acur)
                                        == parse_rec(
                                        doc,
                                        end,
                                        Option::Some(q1),
                                        acc,
                                        assets,
                                        ex.1,
                                    ));
                                    lemma_parse_rec_questions_have_options(
                                        doc,
                                        end,
                                        Option::Some(q1),
                                        acc,
                                        assets,
                                        ex.1,
                                    );
                                } else {
                                    let li = q0.options.len() - 1;
                                    let last0 = q0.options[li];
                                    let last1 = OptView {
                                        label: last0.label,
                                        locked: last0.locked,
                                        content: last0.content + ex.0,
                                    };
                                    let q1 = QView {
                                        number: q0.number,
                                        stem: q0.stem,
                                        options: q0.options.update(li, last1),
                                        correct: q0.correct,
                                    };
                                    assert(parse_rec(doc, c, cur, acc, assets, acur)
                                        == parse_rec(
                                        doc,
                                        end,
                                        Option::Some(q1),
                                        acc,
                                        assets,
                                        ex.1,
                                    ));
                                    lemma_parse_rec_questions_have_options(
                                        doc,
                                        end,
                                        Option::Some(q1),
                                        acc,
                                        assets,
                                        ex.1,
                                    );
                                }
                            },
                        }
                    }
                }
            }
        }
    }
}

/// Closing the current question never introduces an optionless question.
proof fn lemma_finalize_keeps_options(acc: Seq<QView>, cur: Option<QView>)
    requires
        forall|i: int| 0 <= i < acc.len() ==> (#[trigger] acc[i]).options.len() > 0,
    ensures
        forall|i: int|
            0 <= i < finalize_q(acc, cur).len() ==> (#[trigger] finalize_q(acc, cur)[i]).options.len()
                > 0,
{
    match cur {
        Option::None => {},
        Option::Some(q) => {
            if q.options.len() > 0 {
                assert forall|i: int|
                    0 <= i < finalize_q(acc, cur).len() implies (#[trigger] finalize_q(
                    acc,
                    cur,
                )[i]).options.len() > 0 by {
                    if i < acc.len() {
                        assert(finalize_q(acc, cur)[i] == acc[i]);
                    } else {
                        assert(finalize_q(acc, cur)[i] == q);
                    }
                }
            }
        },
    }
}

/// The invariant at the whole-document level.
pub proof fn lemma_parse_doc_questions_have_options(doc: Seq<char>, assets: Seq<Seq<char>>)
    ensures
        forall|i: int|
            0 <= i < spec_parse_doc(doc, assets).len() ==> (#[trigger] spec_parse_doc(
                doc,
                assets,
            )[i]).options.len() > 0,
{
    lemma_parse_rec_questions_have_options(doc, 0, Option::None, Seq::empty(), assets, 0);
}

/// Every option of a question carries a single-letter A-F label.
pub open spec fn q_labels_valid(q: QView) -> bool {
    forall|k: int| 0 <= k < q.options.len() ==> valid_label((#[trigger] q.options[k]).label)
}

/// Option paragraphs only ever produce single-letter A-F labels.
proof fn lemma_split_opts_labels(segs: Seq<SegView>, base: int, plen_total: int, t: Seq<char>, b: int)
    ensures
        forall|k: int|
            0 <= k < split_opts(segs, base, plen_total, t, b).len() ==> valid_label(
                (#[trigger] split_opts(segs, base, plen_total, t, b)[k]).label,
            ),
    decreases t.len() + 1 - b,
{
    let hl = label_head_len(t, b);
    if b >= 0 && hl != -1 {
        let nb = next_label_boundary(t, b + hl);
        lemma_next_label_boundary(t, b + hl);
        assert('A' <= label_char_at(t, b) && label_char_at(t, b) <= 'F');
        let r = split_opts(segs, base, plen_total, t, b);
        assert(valid_label(r[0].label)) by {
            assert(r[0].label == seq![label_char_at(t, b)]);
        }
        if nb != -1 {
            lemma_split_opts_labels(segs, base, plen_total, t, nb);
            let rest = split_opts(segs, base, plen_total, t, nb);
            assert forall|k: int| 0 <= k < r.len() implies valid_label(
                (#[trigger] r[k]).label,
            ) by {
                if k > 0 {
                    assert(r[k] == rest[k - 1]);
                }
            }
        }
    }
}

/// The classifier only ever attaches single-letter A-F labels to the
/// options of every question it returns.
pub proof fn lemma_parse_rec_labels_valid(
    doc: Seq<char>,
    c: int,
    cur: Option<QView>,
    acc: Seq<QView>,
    assets: Seq<Seq<char>>,
    acur: int,
)
    requires
        forall|i: int| 0 <= i < acc.len() ==> q_labels_valid(#[trigger] acc[i]),
        match cur {
            Option::Some(q) => q_labels_valid(q),
            Option::None => true,
        },
    ensures
        forall|i: int|
            0 <= i < parse_rec(doc, c, cur, acc, assets, acur).len() ==> q_labels_valid(
                #[trigger] parse_rec(doc, c, cur, acc, assets, acur)[i],
            ),
    decreases doc.len() + 1 - c,
{
    if c < 0 {
        lemma_finalize_keeps_labels(acc, cur);
    } else {
        lemma_spec_find(doc, "<w:p"@, c);
        let ps = spec_find(doc, "<w:p"@, c);
        if ps == -1 {
            lemma_finalize_keeps_labels(acc, cur);
        } else {
            lemma_spec_find(doc, "</w:p>"@, ps);
            let pe = spec_find(doc, "</w:p>"@, ps);
            if pe == -1 {
                lemma_finalize_keeps_labels(acc, cur);
            } else {
                assert(c < pe + "</w:p>"@.len() <= doc.len()) by {
                    assert(is_at(doc, pe, "</w:p>"@));
                    assert("</w:p>"@.len() > 0) by {
                        reveal_strlit("</w:p>");
                    }
                }
                let end = pe + "</w:p>"@.len();
                let block = doc.subrange(ps, end);
                let ex = spec_extract(
                    block,
                    0,
                    Seq::empty(),
                    Seq::empty(),
                    Seq::empty(),
                    assets,
                    acur,
                );
                if ex.0.len() == 0 {
                    assert(parse_rec(doc, c, cur, acc, assets, acur) == parse_rec(
                        doc,
                        end,
                        cur,
                        acc,
                        assets,
                        ex.1,
                    ));
                    lemma_parse_rec_labels_valid(doc, end, cur, acc, assets, ex.1);
                } else {
                    let plain = spec_plain(ex.0);
                    let b = first_non_space(plain, 0);
                    let t = plain.subrange(b, plain.len() as int);
                    if q_prefix_end(t) >= 0 {
                        let stem = trim_first_text(
                            spec_window(ex.0, 0, b + q_prefix_end(t), tail_to(plain.len() as int)),
                        );
                        let nq = QView {
                            number: q_number_of(t),
                            stem: stem,
                            options: Seq::empty(),
                            correct: Seq::empty(),
                        };
                        assert(parse_rec(doc, c, cur, acc, assets, acur) == parse_rec(
                            doc,
                            end,
                            Option::Some(nq),
                            finalize_q(acc, cur),
                            assets,
                            ex.1,
                        ));
                        lemma_finalize_keeps_labels(acc, cur);
                        lemma_parse_rec_labels_valid(
                            doc,
                            end,
                            Option::Some(nq),
                            finalize_q(acc, cur),
                            assets,
                            ex.1,
                        );
                    } else {
                        match cur {
                            Option::None => {
                                assert(parse_rec(doc, c, cur, acc, assets, acur) == parse_rec(
                                    doc,
                                    end,
                                    Option::None,
                                    acc,
                                    assets,
                                    ex.1,
                                ));
                                lemma_parse_rec_labels_valid(
                                    doc,
                                    end,
                                    Option::None,
                                    acc,
                                    assets,
                                    ex.1,
                                );
                            },
                            Option::Some(q0) => {
                                if label_head_len(t, 0) != -1 {
                                    let nopts = split_opts(ex.0, b, plain.len() as int, t, 0);
                                    let q1 = QView {
                                        number: q0.number,
                                        stem: q0.stem,
                                        options: q0.options + nopts,
                                        correct: q0.correct,
                                    };
                                    lemma_split_opts_labels(ex.0, b, plain.len() as int, t, 0);
                                    assert(q_labels_valid(q1)) by {
                                        assert forall|k: int|
                                            0 <= k < q1.options.len() implies valid_label(
                                            (#[trigger] q1.options[k]).label,
                                        ) by {
                                            if k < q0.options.len() {
                                                assert(q1.options[k] == q0.options[k]);
                                            } else {
                                                assert(q1.options[k] == nopts[k
                                                    - q0.options.len()]);
                                            }
                                        }
                                    }
                                    assert(parse_rec(doc, c, cur, acc, assets, acur)
                                        == parse_rec(
                                        doc,
                                        end,
                                        Option::Some(q1),
                                        acc,
                                        assets,
                                        ex.1,
                                    ));
                                    lemma_parse_rec_labels_valid(
                                        doc,
                                        end,
                                        Option::Some(q1),
                                        acc,
                                        assets,
                                        ex.1,
                                    );
                                } else if q0.options.len() == 0 {
                                    let q1 = QView {
                                        number: q0.number,
                                        stem: q0.stem + ex.0,
                                        options: q0.options,
                                        correct: q0.correct,
                                    };
                                    assert(parse_rec(doc, c, cur, acc, assets, acur)
                                        == parse_rec(
                                        doc,
                                        end,
                                        Option::Some(q1),
                                        acc,
                                        assets,
                                        ex.1,
                                    ));
                                    lemma_parse_rec_labels_valid(
                                        doc,
                                        end,
                                        Option::Some(q1),
                                        acc,
                                        assets,
                                        ex.1,
                                    );
                                } else {
                                    let li = q0.options.len() - 1;
                                    let last0 = q0.options[li];
                                    let last1 = OptView {
                                        label: last0.label,
                                        locked: last0.locked,
                                        content: last0.content + ex.0,
                                    };
                                    let q1 = QView {
                                        number: q0.number,
                                        stem: q0.stem,
                                        options: q0.options.update(li, last1),
                                        correct: q0.correct,
                                    };
                                    assert(q_labels_valid(q1)) by {
                                        assert forall|k: int|
                                            0 <= k < q1.options.len() implies valid_label(
                                            (#[trigger] q1.options[k]).label,
                                        ) by {
                                            if k != li {
                                                assert(q1.options[k] == q0.options[k]);
                                            } else {
                                                assert(q1.options[k].label == last0.label);
                                            }
                                        }
                                    }
                                    assert(parse_rec(doc, c, cur, acc, assets, acur)
                                        == parse_rec(
                                        doc,
                                        end,
                                        Option::Some(q1),
                                        acc,
                                        assets,
                                        ex.1,
                                    ));
                                    lemma_parse_rec_labels_valid(
                                        doc,
                                        end,
                                        Option::Some(q1),
                                        acc,
                                        assets,
                                        ex.1,
                                    );
                                }
                            },
                        }
                    }
                }
            }
        }
    }
}

/// Closing the current question preserves label validity.
proof fn lemma_finalize_keeps_labels(acc: Seq<QView>, cur: Option<QView>)
    requires
        forall|i: int| 0 <= i < acc.len() ==> q_labels_valid(#[trigger] acc[i]),
        match cur {
            Option::Some(q) => q_labels_valid(q),
            Option::None => true,
        },
    ensures
        forall|i: int|
            0 <= i < finalize_q(acc, cur).len() ==> q_labels_valid(
                #[trigger] finalize_q(acc, cur)[i],
            ),
{
    match cur {
        Option::None => {},
        Option::Some(q) => {
            if q.options.len() > 0 {
                assert forall|i: int|
                    0 <= i < finalize_q(acc, cur).len() implies q_labels_valid(
                    #[trigger] finalize_q(acc, cur)[i],
                ) by {
                    if i < acc.len() {
                        assert(finalize_q(acc, cur)[i] == acc[i]);
                    } else {
                        assert(finalize_q(acc, cur)[i] == q);
                    }
                }
            }
        },
    }
}

/// The whole-document labeling rule: every option of every parsed
/// question carries a single-letter A-F label.
pub proof fn lemma_parse_doc_labels_valid(doc: Seq<char>, assets: Seq<Seq<char>>)
    ensures
        forall|i: int|
            0 <= i < spec_parse_doc(doc, assets).len() ==> q_labels_valid(
                #[trigger] spec_parse_doc(doc, assets)[i],
            ),
{
    lemma_parse_rec_labels_valid(doc, 0, Option::None, Seq::empty(), assets, 0);
}

/// The correct label is populated by validation alone: the classifier
/// leaves it empty on every question it returns.  The legacy lock marker
/// only sets an option's informational `locked` flag; it is not
/// equivalent to a correct mark.
pub proof fn lemma_parse_rec_correct_empty(
    doc: Seq<char>,
    c: int,
    cur: Option<QView>,
    acc: Seq<QView>,
    assets: Seq<Seq<char>>,
    acur: int,
)
    requires
        forall|i: int| 0 <= i < acc.len() ==> (#[trigger] acc[i]).correct.len() == 0,
        match cur {
            Option::Some(q) => q.correct.len() == 0,
            Option::None => true,
        },
    ensures
        forall|i: int|
            0 <= i < parse_rec(doc, c, cur, acc, assets, acur).len() ==> (#[trigger] parse_rec(
                doc,
                c,
                cur,
                acc,
                assets,
                acur,
            )[i]).correct.len() == 0,
    decreases doc.len() + 1 - c,
{
    if c < 0 {
        lemma_finalize_keeps_correct(acc, cur);
    } else {
        lemma_spec_find(doc, "<w:p"@, c);
        let ps = spec_find(doc, "<w:p"@, c);
        if ps == -1 {
            lemma_finalize_keeps_correct(acc, cur);
        } else {
            lemma_spec_find(doc, "</w:p>"@, ps);
            let pe = spec_find(doc, "</w:p>"@, ps);
            if pe == -1 {
                lemma_finalize_keeps_correct(acc, cur);
            } else {
                assert(c < pe + "</w:p>"@.len() <= doc.len()) by {
                    assert(is_at(doc, pe, "</w:p>"@));
                    assert("</w:p>"@.len() > 0) by {
                        reveal_strlit("</w:p>");
                    }
                }
                let end = pe + "</w:p>"@.len();
                let block = doc.subrange(ps, end);
                let ex = spec_extract(
                    block,
                    0,
                    Seq::empty(),
                    Seq::empty(),
                    Seq::empty(),
                    assets,
                    acur,
                );
                if ex.0.len() == 0 {
                    assert(parse_rec(doc, c, cur, acc, assets, acur) == parse_rec(
                        doc,
                        end,
                        cur,
                        acc,
                        assets,
                        ex.1,
                    ));
                    lemma_parse_rec_correct_empty(doc, end, cur, acc, assets, ex.1);
                } else {
                    let plain = spec_plain(ex.0);
                    let b = first_non_space(plain, 0);
                    let t = plain.subrange(b, plain.len() as int);
                    if q_prefix_end(t) >= 0 {
                        let stem = trim_first_text(
                            spec_window(ex.0, 0, b + q_prefix_end(t), tail_to(plain.len() as int)),
                        );
                        let nq = QView {
                            number: q_number_of(t),
                            stem: stem,
                            options: Seq::empty(),
                            correct: Seq::empty(),
                        };
                        assert(parse_rec(doc, c, cur, acc, assets, acur) == parse_rec(
                            doc,
                            end,
                            Option::Some(nq),
                            finalize_q(acc, cur),
                            assets,
                            ex.1,
                        ));
                        lemma_finalize_keeps_correct(acc, cur);
                        lemma_parse_rec_correct_empty(
                            doc,
                            end,
                            Option::Some(nq),
                            finalize_q(acc, cur),
                            assets,
                            ex.1,
                        );
                    } else {
                        match cur {
                            Option::None => {
                                assert(parse_rec(doc, c, cur, acc, assets, acur) == parse_rec(
                                    doc,
                                    end,
                                    Option::None,
                                    acc,
                                    assets,
                                    ex.1,
                                ));
                                lemma_parse_rec_correct_empty(
                                    doc,
                                    end,
                                    Option::None,
                                    acc,
                                    assets,
                                    ex.1,
                                );
                            },
                            Option::Some(q0) => {
                                if label_head_len(t, 0) != -1 {
                                    let nopts = split_opts(ex.0, b, plain.len() as int, t, 0);
                                    let q1 = QView {
                                        number: q0.number,
                                        stem: q0.stem,
                                        options: q0.options + nopts,
                                        correct: q0.correct,
                                    };
                                    assert(parse_rec(doc, c, cur, acc, assets, acur)
                                        == parse_rec(
                                        doc,
                                        end,
                                        Option::Some(q1),
                                        acc,
                                        assets,
                                        ex.1,
                                    ));
                                    lemma_parse_rec_correct_empty(
                                        doc,
                                        end,
                                        Option::Some(q1),
                                        acc,
                                        assets,
                                        ex.1,
                                    );
                                } else if q0.options.len() == 0 {
                                    let q1 = QView {
                                        number: q0.number,
                                        stem: q0.stem + ex.0,
                                        options: q0.options,
                                        correct: q0.correct,
                                    };
                                    assert(parse_rec(doc, c, cur, acc, assets, acur)
                                        == parse_rec(
                                        doc,
                                        end,
                                        Option::Some(q1),
                                        acc,
                                        assets,
                                        ex.1,
                                    ));
                                    lemma_parse_rec_correct_empty(
                                        doc,
                                        end,
                                        Option::Some(q1),
                                        acc,
                                        assets,
                                        ex.1,
                                    );
                                } else {
                                    let li = q0.options.len() - 1;
                                    let last0 = q0.options[li];
                                    let last1 = OptView {
                                        label: last0.label,
                                        locked: last0.locked,
                                        content: last0.content + ex.0,
                                    };
                                    let q1 = QView {
                                        number: q0.number,
                                        stem: q0.stem,
                                        options: q0.options.update(li, last1),
                                        correct: q0.correct,
                                    };
                                    assert(parse_rec(doc, c, cur, acc, assets, acur)
                                        == parse_rec(
                                        doc,
                                        end,
                                        Option::Some(q1),
                                        acc,
                                        assets,
                                        ex.1,
                                    ));
                                    lemma_parse_rec_correct_empty(
                                        doc,
                                        end,
                                        Option::Some(q1),
                                        acc,
                                        assets,
                                        ex.1,
                                    );
                                }
                            },
                        }
                    }
                }
            }
        }
    }
}

/// Closing the current question preserves emptiness of the correct label.
proof fn lemma_finalize_keeps_correct(acc: Seq<QView>, cur: Option<QView>)
    requires
        forall|i: int| 0 <= i < acc.len() ==> (#[trigger] acc[i]).correct.len() == 0,
        match cur {
            Option::Some(q) => q.correct.len() == 0,
            Option::None => true,
        },
    ensures
        forall|i: int|
            0 <= i < finalize_q(acc, cur).len() ==> (#[trigger] finalize_q(
                acc,
                cur,
            )[i]).correct.len() == 0,
{
    match cur {
        Option::None => {},
        Option::Some(q) => {
            if q.options.len() > 0 {
                assert forall|i: int|
                    0 <= i < finalize_q(acc, cur).len() implies (#[trigger] finalize_q(
                    acc,
                    cur,
                )[i]).correct.len() == 0 by {
                    if i < acc.len() {
                        assert(finalize_q(acc, cur)[i] == acc[i]);
                    } else {
                        assert(finalize_q(acc, cur)[i] == q);
                    }
                }
            }
        },
    }
}

/// The whole-document statement: the parse returns every correct label
/// empty; only validation fills it.
pub proof fn lemma_parse_doc_correct_empty(doc: Seq<char>, assets: Seq<Seq<char>>)
    ensures
        forall|i: int|
            0 <= i < spec_parse_doc(doc, assets).len() ==> (#[trigger] spec_parse_doc(
                doc,
                assets,
            )[i]).correct.len() == 0,
{
    lemma_parse_rec_correct_empty(doc, 0, Option::None, Seq::empty(), assets, 0);
}

} // verus!
